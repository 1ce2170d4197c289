use nametag::filename::selection_to_filename;
use nametag::schema::{Category, Keyword, Requirement, Schema};
use nametag::selection::{State, UiCategory};
use quickcheck::{Arbitrary, Gen, QuickCheck};

/// A schema that is well formed and unambiguous, made from arbitrary parts.
#[derive(Clone, Debug)]
struct Generated(Schema);

fn letters(g: &mut Gen, from: &[char]) -> String {
    let n = *g.choose(&[1usize, 2, 3]).unwrap();
    (0..n).map(|_| *g.choose(from).unwrap()).collect()
}

impl Arbitrary for Generated {
    fn arbitrary(g: &mut Gen) -> Self {
        let marks = ['-', '/', '.', '→'];
        let mut delim = g.choose(&marks).unwrap().to_string();
        if bool::arbitrary(g) {
            delim.push(*g.choose(&marks).unwrap())
        }
        let n_categories = *g.choose(&[0usize, 1, 2, 3]).unwrap();
        let mut categories = Vec::new();
        for ci in 0..n_categories {
            let n_keywords = *g.choose(&[0usize, 1, 2, 3, 4]).unwrap();
            let mut keywords = Vec::new();
            for j in 0..n_keywords {
                let base = letters(g, &['a', 'b', 'é', 'Z']);
                keywords.push(Keyword {
                    name: letters(g, &['n', ' ', '-', '"']),
                    id: format!("{base}{ci}x{j}"),
                });
            }
            let n = *g.choose(&[0u8, 1, 2, 3]).unwrap();
            let requirement = *g
                .choose(&[Requirement::Exactly(n), Requirement::AtLeast(n), Requirement::AtMost(n)])
                .unwrap();
            categories.push(Category { name: letters(g, &['C', 'd', ' ']), requirement, keywords });
        }
        Generated(Schema { delim, empty: "_".to_string(), categories })
    }

    fn shrink(&self) -> Box<dyn Iterator<Item = Self>> {
        // two char delims will cause different problems than single char delims. don't shrink.
        let schema = &self.0;
        let mut smaller = Vec::new();
        for ci in 0..schema.categories.len() {
            let mut without = schema.clone();
            without.categories.remove(ci);
            smaller.push(Generated(without));
            if !schema.categories[ci].keywords.is_empty() {
                let mut fewer = schema.clone();
                fewer.categories[ci].keywords.pop();
                smaller.push(Generated(fewer));
            }
        }
        Box::new(smaller.into_iter())
    }
}

fn closed_loop(schema: Generated, selection: u32, seed: u64) -> bool {
    let schema = schema.0;
    if !schema.is_well_formed() || !schema.is_unambiguous() {
        return false;
    }
    let mut bool_selection = Vec::with_capacity(32);
    for i in 0..32 {
        let test = 1 << i;
        bool_selection.push(test & selection == test)
    }
    let mut bits = bool_selection.into_iter();
    let mut meets = true;
    let mut categories = Vec::new();
    for cat in &schema.categories {
        let values: Vec<(String, bool)> =
            cat.keywords.iter().map(|k| (k.id.clone(), bits.next().unwrap())).collect();
        let count = values.iter().filter(|(_, on)| *on).count();
        meets = meets && cat.requirement.is_met(count);
        categories.push(UiCategory { name: cat.name.clone(), values });
    }
    let state = State { salt: format!("{seed:x}"), categories };
    if !state.fits(&schema) {
        return false;
    }
    match selection_to_filename(&schema, &state) {
        Err(_) => !meets,
        Ok(filename) => match schema.parse(&filename) {
            Err(_) => false,
            Ok(parsed_state) => {
                if parsed_state != state {
                    println!("schema:   {schema:?}");
                    println!("filename: {filename}");
                    println!("state:    {state:?}");
                    println!("parsed:   {parsed_state:?}");
                    println!("-----------------");
                }
                meets && parsed_state == state
            }
        },
    }
}

#[test]
fn parse_generated_schemas() {
    QuickCheck::new()
        .gen(Gen::new(5))
        .quickcheck(closed_loop as fn(Generated, u32, u64) -> bool);
}
