use factorust::load::{read_entry, reject_amount, Entry, Loader, Side};
use factorust::manager::RecipeManager;
use factorust::part::{Part, State};

/// Reads a description as the command-line program does, amounts as numbers.
fn entries(text: &str) -> Vec<Entry<f64>> {
    text.lines()
        .map(|line| match read_entry(line) {
            Entry::Blank => Entry::Blank,
            Entry::Name(n) => Entry::Name(n),
            Entry::Building(b) => Entry::Building(b),
            Entry::Ingredient { side, text, part, amount } => match amount.parse::<f64>() {
                Ok(v) => Entry::Ingredient { side, text, part, amount: v },
                Err(e) => Entry::Rejected(reject_amount(&text, &amount, &format!("{:?}", e))),
            },
            Entry::Rejected(e) => Entry::Rejected(e),
        })
        .collect()
}

fn part<'a>(m: &'a RecipeManager<f64>, name: &str) -> &'a Part {
    m.parts().get(name).expect("part")
}

const BOOK: &str = "# Iron Ingot
@ Smelter
30 Iron Ingot
30 Iron Ore

# Iron Plate
@ Constructor
< 20 Iron Plate
> 30 Iron Ingot
";

#[test]
fn new_part_defaults() {
    let p = Part::new();
    assert_eq!(p.name, "");
    assert_eq!(p.state, State::Solid);
    assert!(p.atomic);
    assert!(p.sinkable);
    assert_eq!(p.score, 1000);
}

#[test]
fn load_scores_chain() {
    let mut m = RecipeManager::new();
    m.load(entries(BOOK), None).expect("loads");
    assert_eq!(part(&m, "Iron Ore").score, 0);
    assert!(part(&m, "Iron Ore").atomic);
    assert_eq!(part(&m, "Iron Ingot").score, 1);
    assert!(!part(&m, "Iron Ingot").atomic);
    assert_eq!(part(&m, "Iron Plate").score, 2);
    let ranking: Vec<(i32, String)> = m.sorted_recipes().clone();
    assert_eq!(ranking, vec![(1, "Iron Ingot".to_string()), (2, "Iron Plate".to_string())]);
    let plate = m.recipes().get("Iron Plate").expect("recipe");
    assert_eq!(plate.building, "Constructor");
    assert_eq!(*plate.outputs.get("Iron Plate").unwrap(), 20.0);
    assert_eq!(*plate.inputs.get("Iron Ingot").unwrap(), 30.0);
    assert_eq!(plate.score, 2);
}

#[test]
fn read_entry_kinds() {
    assert!(matches!(read_entry("   \t"), Entry::Blank));
    match read_entry("  #  Iron Plate  ") {
        Entry::Name(n) => assert_eq!(n, "Iron Plate"),
        _ => panic!("not a name"),
    }
    match read_entry("> 12.5  Copper Sheet ") {
        Entry::Ingredient { side, text, part, amount } => {
            assert_eq!(side, Side::Input);
            assert_eq!(text, "12.5  Copper Sheet");
            assert_eq!(part, "Copper Sheet");
            assert_eq!(amount, "12.5");
        }
        _ => panic!("not an ingredient"),
    }
    match read_entry("Screws") {
        Entry::Rejected(e) => assert_eq!(e.describe(), "invalid argument: unable to parse ingredient \"Screws\": InvalidArgument(\"malformed ingredient\")"),
        _ => panic!("not rejected"),
    }
}

#[test]
fn loader_steps() {
    let mut m: RecipeManager<f64> = RecipeManager::new();
    let mut l = Loader::new(Some("Assembler".to_string()));
    for e in entries("# Rotor\n< 1 Rotor\n> 5 Rod\n") {
        l = l.feed(&mut m, e).ok().expect("feeds");
    }
    l.finish(&mut m).expect("finishes");
    assert_eq!(m.recipes().get("Rotor").unwrap().building, "Assembler");
}
