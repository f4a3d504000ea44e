use factorust::error::Error;
use factorust::ingredient::Ingredient;
use factorust::inventory::Inventory;
use factorust::load::{read_entry, reject_amount, Entry, Loader};
use factorust::manager::RecipeManager;
use factorust::name_map::NameMap;
use factorust::part::{Part, State};
use factorust::recipe::Recipe;
use factorust::text::{compare_text, trim, white_space, TextOrder};

fn entries(text: &str) -> Vec<Entry<f64>> {
    text.lines()
        .map(|line| match read_entry(line) {
            Entry::Blank => Entry::Blank,
            Entry::Name(n) => Entry::Name(n),
            Entry::Building(b) => Entry::Building(b),
            Entry::Ingredient { side, text, part, amount } => match amount.parse::<f64>() {
                Ok(v) => Entry::Ingredient { side, text, part, amount: v },
                Err(e) => Entry::Rejected(reject_amount(&text, &amount, &format!("{:?}", e))),
            },
            Entry::Rejected(e) => Entry::Rejected(e),
        })
        .collect()
}

fn loaded(text: &str, building: Option<&str>) -> RecipeManager<f64> {
    let mut m = RecipeManager::new();
    m.load(entries(text), building.map(|b| b.to_string())).expect("loads");
    m
}

fn load_error(text: &str) -> String {
    let mut m = RecipeManager::new();
    match m.load(entries(text), None) {
        Ok(()) => panic!("expected an error"),
        Err(e) => e.describe(),
    }
}

fn score(m: &RecipeManager<f64>, name: &str) -> i32 {
    m.parts().get(name).expect("part").score
}

fn ranking(m: &RecipeManager<f64>) -> Vec<(i32, String)> {
    m.sorted_recipes().clone()
}

#[test]
fn duplicate_recipe_is_refused() {
    let msg = load_error("# Plate\n1 Plate\n1 Ingot\n\n# Plate\n2 Plate\n3 Ingot\n");
    assert_eq!(msg, "invalid argument: duplicate recipes named \"Plate\"");
}

#[test]
fn recipe_without_name_and_two_outputs_is_refused() {
    let msg = load_error("< 1 Plate\n< 1 Scrap\n> 1 Ingot\n");
    assert_eq!(msg, "invalid argument: no name for recipe");
}

#[test]
fn bad_amount_is_refused() {
    let msg = load_error("# Plate\nx Plate\n");
    assert_eq!(
        msg,
        "invalid argument: unable to parse ingredient \"x Plate\": InvalidArgument(\"invalid number \\\"x\\\": ParseFloatError { kind: Invalid }\")"
    );
}

#[test]
fn malformed_ingredient_is_refused() {
    let msg = load_error("# Plate\n> Ingot\n");
    assert_eq!(msg, "invalid argument: unable to parse ingredient \"Ingot\": InvalidArgument(\"malformed ingredient\")");
}

#[test]
fn recipes_read_before_an_error_stay() {
    let mut m: RecipeManager<f64> = RecipeManager::new();
    let r = m.load(entries("# Plate\n1 Plate\n1 Ingot\n\n# Rod\nbad\n"), None);
    assert!(r.is_err());
    assert!(m.recipes().get("Plate").is_some());
    assert!(m.recipes().get("Rod").is_none());
    assert_eq!(m.parts().len(), 0);
}

#[test]
fn unnamed_recipe_takes_its_output_name() {
    let m = loaded("2 Rod\n1 Ingot\n", Some("Constructor"));
    let r = m.recipes().get("Rod").expect("recipe");
    assert_eq!(r.name, "Rod");
    assert_eq!(r.building, "Constructor");
    assert_eq!(*r.outputs.get("Rod").unwrap(), 2.0);
    assert_eq!(*r.inputs.get("Ingot").unwrap(), 1.0);
}

#[test]
fn named_building_is_kept() {
    let m = loaded("# Rod\n@ Smelter\n2 Rod\n1 Ingot\n", Some("Constructor"));
    assert_eq!(m.recipes().get("Rod").unwrap().building, "Smelter");
}

#[test]
fn later_amount_replaces_earlier() {
    let m = loaded("# Rod\n2 Rod\n1 Ingot\n4 Ingot\n", None);
    assert_eq!(*m.recipes().get("Rod").unwrap().inputs.get("Ingot").unwrap(), 4.0);
}

#[test]
fn packager_shows_liquids_and_gases() {
    let m = loaded(
        "# Packaged Water\n@ Packager\n< 2 Packaged Water\n> 2 Water\n> 2 Empty Canister\n\n\
         # Packaged Nitrogen\n@ Packager\n< 1 Packaged Nitrogen\n> 4 Nitrogen\n> 1 Empty Fluid Tank\n",
        None,
    );
    assert_eq!(m.parts().get("Water").unwrap().state, State::Liquid);
    assert_eq!(m.parts().get("Nitrogen").unwrap().state, State::Gas);
    assert_eq!(m.parts().get("Empty Canister").unwrap().state, State::Solid);
    assert_eq!(m.parts().get("Packaged Water").unwrap().state, State::Solid);
}

#[test]
fn packager_needs_exactly_two_inputs() {
    let m = loaded("# Packaged Water\n@ Packager\n< 2 Packaged Water\n> 2 Water\n> 2 Empty Canister\n> 1 Glue\n", None);
    assert_eq!(m.parts().get("Water").unwrap().state, State::Solid);
}

#[test]
fn recipe_without_inputs_scores_zero() {
    let m = loaded("# Ore\n1 Ore\n", None);
    assert_eq!(m.recipes().get("Ore").unwrap().score, 0);
    assert_eq!(score(&m, "Ore"), 1);
    assert!(!m.parts().get("Ore").unwrap().atomic);
}

#[test]
fn cycle_without_raw_material_keeps_unknown_scores() {
    let m = loaded("# A\n1 A\n1 B\n\n# B\n1 B\n1 A\n", None);
    assert_eq!(score(&m, "A"), 1000);
    assert_eq!(score(&m, "B"), 1000);
    assert_eq!(m.recipes().get("A").unwrap().score, 1001);
}

#[test]
fn cheapest_way_wins() {
    let m = loaded(
        "# Plate\n1 Plate\n1 Ingot\n\n# Ingot\n1 Ingot\n1 Ore\n\n# Alt Plate\n< 1 Plate\n> 1 Ore\n",
        None,
    );
    assert_eq!(score(&m, "Ore"), 0);
    assert_eq!(score(&m, "Ingot"), 1);
    assert_eq!(score(&m, "Plate"), 1);
    assert_eq!(m.recipes().get("Plate").unwrap().score, 2);
    assert_eq!(
        ranking(&m),
        vec![(1, "Alt Plate".to_string()), (1, "Ingot".to_string()), (2, "Plate".to_string())]
    );
}

#[test]
fn raw_materials_score_zero_and_recipes_exceed_inputs() {
    let m = loaded("# Frame\n1 Frame\n2 Plate\n3 Screw\n\n# Screw\n4 Screw\n1 Rod\n", None);
    assert!(m.parts().get("Plate").unwrap().atomic);
    assert_eq!(score(&m, "Plate"), 0);
    assert_eq!(score(&m, "Rod"), 0);
    assert_eq!(score(&m, "Screw"), 1);
    let frame = m.recipes().get("Frame").unwrap();
    assert!(frame.score >= score(&m, "Screw") + 1);
    assert!(score(&m, "Frame") <= frame.score);
    assert_eq!(frame.score, 2);
}

#[test]
fn deriving_again_changes_nothing() {
    let mut m = loaded("# Frame\n1 Frame\n2 Plate\n3 Screw\n\n# Screw\n4 Screw\n1 Rod\n", None);
    let before: Vec<(String, i32, bool)> = (0..m.parts().len())
        .map(|i| (m.parts().key_at(i).clone(), m.parts().value_at(i).score, m.parts().value_at(i).atomic))
        .collect();
    let ranked = ranking(&m);
    m.derive_parts();
    let after: Vec<(String, i32, bool)> = (0..m.parts().len())
        .map(|i| (m.parts().key_at(i).clone(), m.parts().value_at(i).score, m.parts().value_at(i).atomic))
        .collect();
    assert_eq!(before, after);
    assert_eq!(ranked, ranking(&m));
}

#[test]
fn parts_listed_by_name() {
    let m = loaded("# Frame\n1 Frame\n2 Plate\n3 Screw\n", None);
    let names: Vec<String> = (0..m.parts().len()).map(|i| m.parts().key_at(i).clone()).collect();
    assert_eq!(names, vec!["Frame", "Plate", "Screw"]);
    assert_eq!(m.parts().get("Frame").unwrap().name, "Frame");
}

#[test]
fn inventory_atomicity() {
    let m = loaded("# Ingot\n1 Ingot\n1 Ore\n", None);
    let mut inv: Inventory<f64> = Inventory::new();
    assert!(m.is_atomic(&inv));
    inv.parts_mut().insert("Ore".to_string(), 3.0);
    inv.parts_mut().insert("Unknown".to_string(), 1.0);
    assert!(m.is_atomic(&inv));
    inv.parts_mut().insert("Ingot".to_string(), 1.0);
    assert!(!m.is_atomic(&inv));
}

#[test]
fn name_map_reads_what_was_written() {
    let mut n: NameMap<i32> = NameMap::new();
    n.insert("b".to_string(), 1);
    n.insert("a".to_string(), 2);
    n.insert("b".to_string(), 3);
    assert_eq!(n.len(), 2);
    assert_eq!(n.key_at(0), "a");
    assert_eq!(*n.get("b").unwrap(), 3);
    assert_eq!(n.index_of("c"), None);
    assert!(n.contains_key("a"));
    assert_eq!(n.replace_value_at(0, 7), 2);
    assert_eq!(*n.value_at(0), 7);
}

#[test]
fn text_order_is_by_code_point() {
    assert_eq!(compare_text("a", "b"), TextOrder::Less);
    assert_eq!(compare_text("ab", "a"), TextOrder::Greater);
    assert_eq!(compare_text("Zeta", "alpha"), TextOrder::Less);
    assert_eq!(compare_text("é", "z"), TextOrder::Greater);
    assert_eq!(compare_text("same", "same"), TextOrder::Equal);
}

fn read_f32(t: &str) -> Result<f32, String> {
    t.parse::<f32>().map_err(|e| format!("{:?}", e))
}

fn read_f64(t: &str) -> Result<f64, String> {
    t.parse::<f64>().map_err(|e| format!("{:?}", e))
}

#[test]
fn ingredient_parse_splits_at_first_space() {
    let i = Ingredient::parse("  30   Iron Ore  ", read_f32).ok().expect("parses");
    assert_eq!(i.amount, 30.0);
    assert_eq!(i.part, "Iron Ore");
    match Ingredient::parse("30\tIron", read_f32) {
        Err(e) => assert_eq!(e.describe(), "invalid argument: malformed ingredient"),
        Ok(_) => panic!("expected an error"),
    }
    let (part, amount) = RecipeManager::<f64>::parse_ingredient("1.5 Rotor", read_f64).ok().expect("parses");
    assert_eq!((part.as_str(), amount), ("Rotor", 1.5));
}

#[test]
fn ingredient_parse_rejects_bad_number() {
    match Ingredient::parse("thirty Iron Ore", read_f32) {
        Err(e) => assert_eq!(
            e.describe(),
            "invalid argument: invalid number \"thirty\": ParseFloatError { kind: Invalid }"
        ),
        Ok(_) => panic!("expected an error"),
    }
    match RecipeManager::<f64>::parse_ingredient(" 1..5 Rotor", read_f64) {
        Err(e) => assert_eq!(
            e.describe(),
            "invalid argument: invalid number \"1..5\": ParseFloatError { kind: Invalid }"
        ),
        Ok(_) => panic!("expected an error"),
    }
}

#[test]
fn trim_removes_unicode_white_space() {
    for s in ["  a b  ", "\u{3000}\u{85}x\u{2029}", "\t\n\r", "", "\u{200B}y\u{200B}", "\u{A0}\u{1680}z\u{202F}\u{205F}"] {
        assert_eq!(trim(s), s.trim());
    }
    assert_eq!(trim("\u{2000}\u{200A} q \u{0B}\u{0C}"), "q");
    assert!(white_space('\u{85}'));
    assert!(!white_space('\u{200B}'));
    assert!(!white_space('a'));
}

#[test]
fn error_texts() {
    let e = Error::invalid_argument("bad \"thing\"".to_string());
    assert_eq!(e.describe(), "invalid argument: bad \"thing\"");
    assert_eq!(e.debug_text(), "InvalidArgument(\"bad \\\"thing\\\"\")");
    assert_eq!(e.debug_text(), format!("{:?}", e));
}

#[test]
fn part_marks() {
    let mut p = Part::new();
    assert_eq!(p.marks(), ('S', '@', ' '));
    p.state = State::Gas;
    p.atomic = false;
    p.sinkable = false;
    assert_eq!(p.marks(), ('G', ' ', '&'));
}

#[test]
fn loader_stops_at_rejected_entry() {
    let mut m: RecipeManager<f64> = RecipeManager::new();
    let l = Loader::new(None);
    let r = l.feed(&mut m, Entry::Rejected(Error::invalid_argument("no".to_string())));
    match r {
        Err(e) => assert_eq!(e.describe(), "invalid argument: no"),
        Ok(_) => panic!("expected an error"),
    }
}

#[test]
fn new_recipe_is_empty() {
    let r: Recipe<f64> = Recipe::new();
    assert_eq!(r.name, "");
    assert_eq!(r.building, "");
    assert_eq!(r.outputs.len(), 0);
    assert_eq!(r.inputs.len(), 0);
    assert_eq!(r.score, 1000);
}

fn runs_needed(pairs: &[(f64, f64)]) -> f64 {
    let mut times = 0.0f64;
    for (want, have) in pairs {
        times = times.max(want / have);
    }
    times
}

fn stock(items: &[(&str, f64)]) -> Inventory<f64> {
    let mut inv = Inventory::new();
    for (name, amount) in items {
        inv.parts_mut().insert(name.to_string(), *amount);
    }
    inv
}

fn recipe_of(building: &str, inputs: &[(&str, f64)], outputs: &[(&str, f64)]) -> Recipe<f64> {
    let mut r = Recipe::new();
    r.name = String::from("rec");
    r.building = String::from(building);
    for (name, amount) in inputs {
        r.inputs.insert(name.to_string(), *amount);
    }
    for (name, amount) in outputs {
        r.outputs.insert(name.to_string(), *amount);
    }
    r
}

#[test]
fn test_apply_backwards_constructor() {
    let inventory = stock(&[("ingot", 60.0), ("other", 100.0)]);
    let recipe = recipe_of("Constructor", &[("ore", 30.0)], &[("ingot", 30.0)]);

    let times = runs_needed(&inventory.yields_of(&recipe));
    assert!(times != 0.0, "expected answer");
    let actual = inventory.before_recipe(&recipe, |want, have| (times * want) + have.unwrap_or(0.0));
    assert_eq!(actual.parts().len(), 2);
    assert_eq!(*actual.parts().get("ore").unwrap(), 60.0);
    assert_eq!(*actual.parts().get("other").unwrap(), 100.0);
}

#[test]
fn test_apply_backwards_refinery() {
    let inventory = stock(&[("solution", 50.0), ("scrap", 1.0)]);
    let recipe = recipe_of(
        "Refinery",
        &[("bauxite", 20.0), ("water", 120.0)],
        &[("solution", 10.0), ("scrap", 100.0)],
    );

    let times = runs_needed(&inventory.yields_of(&recipe));
    assert!(times != 0.0, "expected answer");
    let actual = inventory.before_recipe(&recipe, |want, have| (times * want) + have.unwrap_or(0.0));
    assert_eq!(actual.parts().len(), 2);
    assert_eq!(*actual.parts().get("bauxite").unwrap(), 100.0);
    assert_eq!(*actual.parts().get("water").unwrap(), 600.0);
}

#[test]
fn yields_pair_wanted_outputs_in_name_order() {
    let inventory = stock(&[("scrap", 1.0), ("other", 7.0), ("solution", 50.0)]);
    let recipe = recipe_of("Refinery", &[("water", 120.0)], &[("solution", 10.0), ("scrap", 100.0)]);
    assert_eq!(inventory.yields_of(&recipe), vec![(1.0, 100.0), (50.0, 10.0)]);
    let unrelated = recipe_of("Smelter", &[("ore", 1.0)], &[("ingot", 1.0)]);
    assert!(inventory.yields_of(&unrelated).is_empty());
}

#[test]
fn before_recipe_adds_to_wanted_inputs() {
    let inventory = stock(&[("ingot", 60.0), ("ore", 5.0), ("plate", 2.0)]);
    let recipe = recipe_of("Constructor", &[("ore", 30.0), ("ingot", 1.0)], &[("ingot", 30.0)]);
    let actual = inventory.before_recipe(&recipe, |want, have| 2.0 * want + have.unwrap_or(0.0));
    assert_eq!(actual.parts().len(), 3);
    assert_eq!(*actual.parts().get("ore").unwrap(), 65.0);
    assert_eq!(*actual.parts().get("ingot").unwrap(), 62.0);
    assert_eq!(*actual.parts().get("plate").unwrap(), 2.0);
}
