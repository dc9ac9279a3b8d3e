use puzzles::allergen::{
    add_names, conclude, count_flags, count_mentions, count_unknowns, dangerous,
    deduce_sole_possible_allergens, find_name, initial, is_before, is_ruled_out, line_pattern,
    listing_from, marks, number, parse, part1, part2, same_name, solve, solve1, split_at_commas,
    Ingredient, SolveError,
};

fn name(s: &str) -> Vec<char> {
    s.chars().collect()
}

fn names(all: &[&str]) -> Vec<Vec<char>> {
    all.iter().map(|s| name(s)).collect()
}

fn lines(text: &[&str]) -> Vec<String> {
    text.iter().map(|s| s.to_string()).collect()
}

const FOODS: [&str; 4] = [
    "mxmxvkd kfcds sqjhc nhms (contains dairy, fish)",
    "trh fvjkl sbzzf mxmxvkd (contains dairy)",
    "sqjhc fvjkl (contains soy)",
    "sqjhc mxmxvkd sbzzf (contains fish)",
];

#[test]
fn lists_are_cut_at_comma_and_space() {
    assert_eq!(split_at_commas(&name("dairy, fish")), names(&["dairy", "fish"]));
    assert_eq!(split_at_commas(&name("a,b")), names(&["a,b"]));
    assert_eq!(split_at_commas(&name("a, ")), names(&["a", ""]));
    assert_eq!(split_at_commas(&name("")), names(&[""]));
    assert_eq!(split_at_commas(&name(", ")), names(&["", ""]));
    assert_eq!(split_at_commas(&name("a,, b")), names(&["a,", "b"]));
    assert_eq!(split_at_commas(&name("a , b,c, d")), names(&["a ", "b,c", "d"]));
}

#[test]
fn food_lines_are_read() {
    let pattern = line_pattern().unwrap();
    assert_eq!(pattern.as_str(), "^(.*) [(]contains ([^)]*)[)]$");
    let listings = parse(&pattern, &lines(&FOODS)).ok().unwrap();
    assert_eq!(listings.len(), 4);
    assert_eq!(listings[0].ingredients, names(&["mxmxvkd", "kfcds", "sqjhc", "nhms"]));
    assert_eq!(listings[0].allergens, names(&["dairy", "fish"]));
    assert_eq!(listings[2].allergens, names(&["soy"]));
    let bad = lines(&[FOODS[0], "sqjhc fvjkl", FOODS[1], "x"]);
    assert_eq!(parse(&pattern, &bad).err(), Some(1));
    assert!(parse(&pattern, &Vec::new()).ok().unwrap().is_empty());
}

#[test]
fn a_listing_needs_both_groups() {
    let text = |s: &str| Some(s.to_string());
    let l = listing_from(&Some(vec![text("a b (contains x, y)"), text("a b"), text("x, y")])).unwrap();
    assert_eq!(l.ingredients, names(&["a", "b"]));
    assert_eq!(l.allergens, names(&["x", "y"]));
    assert!(listing_from(&None).is_none());
    assert!(listing_from(&Some(vec![text("a"), text("a")])).is_none());
    assert!(listing_from(&Some(vec![text("a"), None, text("x")])).is_none());
}

#[test]
fn names_are_numbered_in_the_order_of_their_first_use() {
    let pattern = line_pattern().unwrap();
    let listings = parse(&pattern, &lines(&FOODS)).ok().unwrap();
    let menu = number(&listings);
    assert_eq!(
        menu.ingredient_names,
        names(&["mxmxvkd", "kfcds", "sqjhc", "nhms", "trh", "fvjkl", "sbzzf"])
    );
    assert_eq!(menu.allergen_names, names(&["dairy", "fish", "soy"]));
    assert_eq!(menu.foods.len(), 4);
    assert_eq!(menu.foods[1].ingredients, vec![true, false, false, false, true, true, true]);
    assert_eq!(menu.foods[1].allergens, vec![true, false, false]);
    assert_eq!(menu.foods[3].allergens, vec![false, true, false]);
}

#[test]
fn tables_of_names() {
    let mut table = names(&["a", "b"]);
    add_names(&mut table, &names(&["b", "c", "a", "c", "d"]));
    assert_eq!(table, names(&["a", "b", "c", "d"]));
    assert_eq!(find_name(&table, &name("c")), Some(2));
    assert_eq!(find_name(&table, &name("e")), None);
    assert_eq!(marks(&table, &names(&["d", "a", "x"])), vec![true, false, false, true]);
    assert!(same_name(&name("ab"), &name("ab")));
    assert!(!same_name(&name("ab"), &name("ac")));
    assert!(!same_name(&name("ab"), &name("a")));
}

#[test]
fn what_the_foods_rule_out() {
    let pattern = line_pattern().unwrap();
    let menu = number(&parse(&pattern, &lines(&FOODS)).ok().unwrap());
    // kfcds is not in the second food, which holds dairy.
    assert!(is_ruled_out(&menu, 1, 0));
    // mxmxvkd is in every food that holds dairy or fish, and not in the one with soy.
    assert!(!is_ruled_out(&menu, 0, 0));
    assert!(!is_ruled_out(&menu, 0, 1));
    assert!(is_ruled_out(&menu, 0, 2));
    let all = initial(&menu);
    assert_eq!(all.len(), 7);
    assert_eq!(all[0].possible_allergens, vec![true, true, false]);
    assert_eq!(all[0].excluded_allergens, vec![false, false, true]);
    assert_eq!(all[2].possible_allergens, vec![false, true, true]);
    assert_eq!(all[5].possible_allergens, vec![false, false, true]);
    assert_eq!(all[6].possible_allergens, vec![false, false, false]);
    assert_eq!(all[5].name, name("fvjkl"));
    assert_eq!(count_unknowns(&all), 5);
    assert_eq!(deduce_sole_possible_allergens(&all), vec![(5, 2)]);
}

#[test]
fn knowledge_of_one_ingredient() {
    let mut ing = Ingredient::new(&name("x"), 3);
    assert_eq!(ing.possible_allergens, vec![true, true, true]);
    assert_eq!(ing.excluded_allergens, vec![false, false, false]);
    assert_eq!(ing.is_non_allergenic(), None);
    assert_eq!(ing.sole_possible_allergen(), None);
    ing.conclude_must_not_contain(0);
    ing.conclude_must_not_contain(2);
    assert_eq!(ing.possible_allergens, vec![false, true, false]);
    assert_eq!(ing.excluded_allergens, vec![true, false, true]);
    assert_eq!(ing.sole_possible_allergen(), Some(1));
    assert_eq!(count_flags(&ing.possible_allergens), 1);
    ing.conclude_must_contain(1);
    assert_eq!(ing.definite_allergen, Some(1));
    assert_eq!(ing.possible_allergens, vec![false, false, false]);
    assert_eq!(ing.is_non_allergenic(), Some(false));
    let mut none = Ingredient::new(&name("y"), 1);
    none.conclude_must_not_contain(0);
    assert_eq!(none.is_non_allergenic(), Some(true));
    assert_eq!(Ingredient::new(&name("z"), 0).is_non_allergenic(), Some(true));
}

#[test]
fn a_conclusion_touches_every_ingredient() {
    let mut all = vec![Ingredient::new(&name("a"), 2), Ingredient::new(&name("b"), 2)];
    all[0].conclude_must_not_contain(1);
    assert!(conclude(&mut all, 0, 0));
    assert_eq!(all[0].definite_allergen, Some(0));
    assert_eq!(all[1].possible_allergens, vec![false, true]);
    assert_eq!(all[1].excluded_allergens, vec![true, false]);
    // The second ingredient is known not to hold the first allergen.
    assert!(!conclude(&mut all, 1, 0));
    let mut open = vec![Ingredient::new(&name("a"), 2)];
    // It may still hold the other allergen.
    assert!(!conclude(&mut open, 0, 0));
    assert!(!conclude(&mut open, 0, 2));
}

#[test]
fn the_allergens_of_the_foods_are_found() {
    let pattern = line_pattern().unwrap();
    let (menu, all) = solve1(&pattern, &lines(&FOODS)).ok().unwrap();
    let held: Vec<Option<usize>> = all.iter().map(|i| i.definite_allergen).collect();
    assert_eq!(held, vec![Some(0), None, Some(1), None, None, Some(2), None]);
    assert_eq!(count_unknowns(&all), 0);
    assert_eq!(count_mentions(&menu, &all), 5);
    let (count, menu, all) = part1(&pattern, &lines(&FOODS)).ok().unwrap();
    assert_eq!(count, 5);
    assert_eq!(dangerous(&menu, &all), vec![(0, 0), (1, 2), (2, 5)]);
    let (pairs, text) = part2(&menu, &all);
    assert_eq!(pairs, vec![(0, 0), (1, 2), (2, 5)]);
    assert_eq!(text, "mxmxvkd,sqjhc,fvjkl");
}

#[test]
fn the_list_follows_the_names_of_the_allergens() {
    let pattern = line_pattern().unwrap();
    let text = lines(&["b (contains zinc)", "a (contains iron)", "c (contains air)", "a b c d"]);
    assert_eq!(solve1(&pattern, &text).err(), Some(SolveError::BadLine(3)));
    let (_, menu, all) = part1(&pattern, &text[..3].to_vec()).ok().unwrap();
    assert_eq!(part2(&menu, &all).1, "c,a,b");
    let nothing = part1(&pattern, &Vec::new()).ok().unwrap();
    assert_eq!(nothing.0, 0);
    assert_eq!(part2(&nothing.1, &nothing.2).1, "");
}

#[test]
fn foods_that_cannot_be_solved() {
    let pattern = line_pattern().unwrap();
    let twice = lines(&["a b (contains x)"]);
    assert_eq!(solve1(&pattern, &twice).err(), Some(SolveError::Contradiction));
    let open = lines(&["a b (contains x, y)"]);
    assert_eq!(solve1(&pattern, &open).err(), Some(SolveError::NotSolvable));
    let menu = number(&parse(&pattern, &open).ok().unwrap());
    assert_eq!(solve(&menu).err(), Some(SolveError::NotSolvable));
}

#[test]
fn names_in_the_order_of_a_dictionary() {
    assert!(is_before(&name("a"), &name("b")));
    assert!(!is_before(&name("b"), &name("a")));
    assert!(is_before(&name(""), &name("a")));
    assert!(!is_before(&name("a"), &name("")));
    assert!(!is_before(&name("a"), &name("a")));
    assert!(is_before(&name("a"), &name("ab")));
    assert!(is_before(&name("Zebra"), &name("apple")));
    assert!(!is_before(&name(""), &name("")));
}
