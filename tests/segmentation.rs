use element_namer::analyzer::{analyze, get_results, make_ascii_titlecase, resolve, segment, Mark, Tree};
use element_namer::table::{ElementTable, LoadError};

const STANDARD_TABLE: [&str; 119] = [
    "Atomic Number,Name,Symbol,Atomic Weight\n",
    "1,Hydrogen,H,1.008\n",
    "2,Helium,He,4.0026\n",
    "3,Lithium,Li,6.94\n",
    "4,Beryllium,Be,9.0122\n",
    "5,Boron,B,10.81\n",
    "6,Carbon,C,12.011\n",
    "7,Nitrogen,N,14.007\n",
    "8,Oxygen,O,15.999\n",
    "9,Fluorine,F,18.998\n",
    "10,Neon,Ne,20.180\n",
    "11,Sodium,Na,22.990\n",
    "12,Magnesium,Mg,24.305\n",
    "13,Aluminium,Al,26.982\n",
    "14,Silicon,Si,28.085\n",
    "15,Phosphorus,P,30.974\n",
    "16,Sulfur,S,32.06\n",
    "17,Chlorine,Cl,35.45\n",
    "18,Argon,Ar,39.948\n",
    "19,Potassium,K,39.098\n",
    "20,Calcium,Ca,40.078\n",
    "21,Scandium,Sc,44.956\n",
    "22,Titanium,Ti,47.867\n",
    "23,Vanadium,V,50.942\n",
    "24,Chromium,Cr,51.996\n",
    "25,Manganese,Mn,54.938\n",
    "26,Iron,Fe,55.845\n",
    "27,Cobalt,Co,58.933\n",
    "28,Nickel,Ni,58.693\n",
    "29,Copper,Cu,63.546\n",
    "30,Zinc,Zn,65.38\n",
    "31,Gallium,Ga,69.723\n",
    "32,Germanium,Ge,72.630\n",
    "33,Arsenic,As,74.922\n",
    "34,Selenium,Se,78.971\n",
    "35,Bromine,Br,79.904\n",
    "36,Krypton,Kr,83.798\n",
    "37,Rubidium,Rb,85.468\n",
    "38,Strontium,Sr,87.62\n",
    "39,Yttrium,Y,88.906\n",
    "40,Zirconium,Zr,91.224\n",
    "41,Niobium,Nb,92.906\n",
    "42,Molybdenum,Mo,95.95\n",
    "43,Technetium,Tc,98\n",
    "44,Ruthenium,Ru,101.07\n",
    "45,Rhodium,Rh,102.91\n",
    "46,Palladium,Pd,106.42\n",
    "47,Silver,Ag,107.87\n",
    "48,Cadmium,Cd,112.41\n",
    "49,Indium,In,114.82\n",
    "50,Tin,Sn,118.71\n",
    "51,Antimony,Sb,121.76\n",
    "52,Tellurium,Te,127.60\n",
    "53,Iodine,I,126.90\n",
    "54,Xenon,Xe,131.29\n",
    "55,Caesium,Cs,132.91\n",
    "56,Barium,Ba,137.33\n",
    "57,Lanthanum,La,138.91\n",
    "58,Cerium,Ce,140.12\n",
    "59,Praseodymium,Pr,140.91\n",
    "60,Neodymium,Nd,144.24\n",
    "61,Promethium,Pm,145\n",
    "62,Samarium,Sm,150.36\n",
    "63,Europium,Eu,151.96\n",
    "64,Gadolinium,Gd,157.25\n",
    "65,Terbium,Tb,158.93\n",
    "66,Dysprosium,Dy,162.50\n",
    "67,Holmium,Ho,164.93\n",
    "68,Erbium,Er,167.26\n",
    "69,Thulium,Tm,168.93\n",
    "70,Ytterbium,Yb,173.05\n",
    "71,Lutetium,Lu,174.97\n",
    "72,Hafnium,Hf,178.49\n",
    "73,Tantalum,Ta,180.95\n",
    "74,Tungsten,W,183.84\n",
    "75,Rhenium,Re,186.21\n",
    "76,Osmium,Os,190.23\n",
    "77,Iridium,Ir,192.22\n",
    "78,Platinum,Pt,195.08\n",
    "79,Gold,Au,196.97\n",
    "80,Mercury,Hg,200.59\n",
    "81,Thallium,Tl,204.38\n",
    "82,Lead,Pb,207.2\n",
    "83,Bismuth,Bi,208.98\n",
    "84,Polonium,Po,209\n",
    "85,Astatine,At,210\n",
    "86,Radon,Rn,222\n",
    "87,Francium,Fr,223\n",
    "88,Radium,Ra,226\n",
    "89,Actinium,Ac,227\n",
    "90,Thorium,Th,232.04\n",
    "91,Protactinium,Pa,231.04\n",
    "92,Uranium,U,238.03\n",
    "93,Neptunium,Np,237\n",
    "94,Plutonium,Pu,244\n",
    "95,Americium,Am,243\n",
    "96,Curium,Cm,247\n",
    "97,Berkelium,Bk,247\n",
    "98,Californium,Cf,251\n",
    "99,Einsteinium,Es,252\n",
    "100,Fermium,Fm,257\n",
    "101,Mendelevium,Md,258\n",
    "102,Nobelium,No,259\n",
    "103,Lawrencium,Lr,266\n",
    "104,Rutherfordium,Rf,267\n",
    "105,Dubnium,Db,268\n",
    "106,Seaborgium,Sg,269\n",
    "107,Bohrium,Bh,270\n",
    "108,Hassium,Hs,277\n",
    "109,Meitnerium,Mt,278\n",
    "110,Darmstadtium,Ds,281\n",
    "111,Roentgenium,Rg,282\n",
    "112,Copernicium,Cn,285\n",
    "113,Nihonium,Nh,286\n",
    "114,Flerovium,Fl,289\n",
    "115,Moscovium,Mc,290\n",
    "116,Livermorium,Lv,293\n",
    "117,Tennessine,Ts,294\n",
    "118,Oganesson,Og,294\n",
];

fn standard_table() -> ElementTable {
    let text: String = STANDARD_TABLE.concat();
    ElementTable::from_csv_text(&text).unwrap()
}

fn spelled(table: &ElementTable, path: &[usize]) -> String {
    let mut out = String::new();
    for &i in path {
        out.push_str(&table.data().1[i]);
    }
    out
}

fn paths_of(word: &str, table: &ElementTable) -> Vec<Vec<usize>> {
    let mut root = Box::new(Tree::empty());
    let out = analyze(word.to_string(), table, &mut root);
    if out.is_none() {
        return vec![];
    }
    root.traverse()
}

#[test]
fn standard_table_loads_all_elements() {
    let table = standard_table();
    assert_eq!(table.length(), 118);
    assert_eq!(table.data().0[0], "hydrogen");
    assert_eq!(table.data().1[1], "he");
    assert_eq!(table.data().2[42], "98");
    assert_eq!(table.data().1[117], "og");
}

#[test]
fn empty_word_gives_no_tree_and_no_paths() {
    let table = standard_table();
    let mut root = Box::new(Tree::empty());
    assert!(analyze(String::new(), &table, &mut root).is_none());
    assert!(root.traverse().is_empty());
    assert!(segment("", &table).is_empty());
}

#[test]
fn unmatched_letters_give_no_paths() {
    let table = standard_table();
    assert!(segment("qqq", &table).is_empty());
    assert!(segment("jqj", &table).is_empty());
    assert!(paths_of("q", &table).is_empty());
}

#[test]
fn segmentation_is_repeatable() {
    let table = standard_table();
    let first = segment("genius", &table);
    let second = segment("genius", &table);
    assert_eq!(first, second);
    assert_eq!(paths_of("chocolate", &table), paths_of("chocolate", &table));
}

#[test]
fn every_path_spells_the_word() {
    let table = standard_table();
    for word in ["genius", "chocolate", "bacon", "sics", "nice"] {
        let paths = segment(word, &table);
        assert!(!paths.is_empty(), "{}", word);
        for p in &paths {
            assert_eq!(spelled(&table, p), word);
        }
    }
}

#[test]
fn hydrogen_alone() {
    let table = standard_table();
    assert_eq!(segment("h", &table), vec![vec![0]]);
    let results = get_results(segment("h", &table), &table);
    assert_eq!(results, vec![vec![("hydrogen".to_string(), "1.008".to_string())]]);
}

#[test]
fn helium_is_the_only_path_for_he() {
    let table = standard_table();
    assert_eq!(segment("he", &table), vec![vec![1]]);
}

#[test]
fn genius_paths() {
    let table = standard_table();
    let paths = segment("genius", &table);
    assert_eq!(paths, vec![vec![31, 6, 52, 91, 15], vec![31, 27, 91, 15]]);
    let named = get_results(paths, &table);
    let names: Vec<&str> = named[0].iter().map(|r| r.0.as_str()).collect();
    assert_eq!(names, vec!["germanium", "nitrogen", "iodine", "uranium", "sulfur"]);
}

#[test]
fn letter_without_symbol_prunes_its_paths() {
    let table = standard_table();
    assert!(segment("hjo", &table).is_empty());
    assert!(segment("j", &table).is_empty());
    // the dead branch through "h" is dropped; "ho" survives only without "j"
    assert_eq!(segment("ho", &table), vec![vec![0, 7], vec![66]]);
}

#[test]
fn upper_case_input_is_lowered() {
    let table = standard_table();
    assert_eq!(segment("GeNiUs", &table), segment("genius", &table));
    assert_eq!(segment("H", &table), vec![vec![0]]);
}

#[test]
fn analyze_marks_a_dead_end() {
    let table = standard_table();
    let mut root = Box::new(Tree::empty());
    let grown = analyze("q".to_string(), &table, &mut root).unwrap();
    assert_eq!(grown.mark, Mark::Dead);
    assert!(grown.left.is_none() && grown.right.is_none());
}

#[test]
fn analyze_builds_both_branches() {
    let table = standard_table();
    let mut root = Box::new(Tree::empty());
    let grown = analyze("bi".to_string(), &table, &mut root).unwrap();
    let left = grown.left.as_ref().unwrap();
    assert_eq!(left.mark, Mark::Element(4));
    assert_eq!(left.left.as_ref().unwrap().mark, Mark::Element(52));
    assert_eq!(grown.right.as_ref().unwrap().mark, Mark::Element(82));
    assert_eq!(root.traverse(), vec![vec![4, 52], vec![82]]);
}

#[test]
fn traverse_of_hand_built_tree() {
    let mut root = Tree::empty();
    let mut a = Tree::new(3);
    a.left = Some(Box::new(Tree::new(5)));
    let mut dead = Tree::new(9);
    dead.mark = Mark::Dead;
    a.right = Some(Box::new(dead));
    root.left = Some(Box::new(a));
    root.right = Some(Box::new(Tree::new(7)));
    assert_eq!(root.traverse(), vec![vec![3, 5], vec![7]]);
    assert!(Tree::empty().traverse().is_empty());
    assert_eq!(root.duplicate().traverse(), root.traverse());
}

#[test]
fn resolve_maps_indices_to_records() {
    let table = standard_table();
    let r = resolve(&vec![1, 42], &table);
    assert_eq!(r, vec![("helium".to_string(), "4.0026".to_string()), ("technetium".to_string(), "98".to_string())]);
    assert_eq!(table.record_at(117), ("oganesson".to_string(), "294".to_string()));
}

#[test]
fn find_index_takes_first_match() {
    let table = standard_table();
    assert_eq!(table.find_index("fe"), Some(25));
    assert_eq!(table.find_index("Fe"), None);
    assert_eq!(table.find_index("j"), None);
    let col = vec!["a".to_string(), "b".to_string(), "a".to_string()];
    assert_eq!(ElementTable::column_get_idx(&col, "a".to_string()), Some(0));
    assert_eq!(ElementTable::column_get_idx(&col, "c".to_string()), None);
}

#[test]
fn table_categories() {
    let table = standard_table();
    assert_eq!(table.categories(), ["Atomic Number", "Name", "Symbol", "Atomic Weight"]);
}

#[test]
fn short_row_is_rejected() {
    let r = ElementTable::from_csv_text("n,name,sym,mass\n1,Hydrogen,H,1.008\n2,Helium,He\n");
    assert_eq!(r.unwrap_err(), LoadError::MalformedRow(1));
}

#[test]
fn table_text_with_crlf_and_no_final_newline() {
    let t = ElementTable::from_csv_text("n,name,sym,mass\r\n1,Hydrogen,H,1.008\r\n2,Helium,HE,4.0026").unwrap();
    assert_eq!(t.length(), 2);
    assert_eq!(t.data().1, vec!["h".to_string(), "he".to_string()]);
    assert_eq!(t.data().2[0], "1.008");
    let empty = ElementTable::from_csv_text("").unwrap();
    assert_eq!(empty.length(), 0);
}

#[test]
fn titlecase_first_letter() {
    let mut s = "germanium".to_string();
    make_ascii_titlecase(&mut s);
    assert_eq!(s, "Germanium");
    let mut e = String::new();
    make_ascii_titlecase(&mut e);
    assert_eq!(e, "");
    let mut u = "éa".to_string();
    make_ascii_titlecase(&mut u);
    assert_eq!(u, "éa");
    let mut d = "1ab".to_string();
    make_ascii_titlecase(&mut d);
    assert_eq!(d, "1ab");
}

fn same_tree(a: &Tree, b: &Tree) -> bool {
    let same_child = |x: &Option<Box<Tree>>, y: &Option<Box<Tree>>| match (x, y) {
        (None, None) => true,
        (Some(p), Some(q)) => same_tree(p, q),
        _ => false,
    };
    a.mark == b.mark && same_child(&a.left, &b.left) && same_child(&a.right, &b.right)
}

fn is_leaf_marked(t: &Option<Box<Tree>>, mark: Mark) -> bool {
    match t {
        Some(n) => n.mark == mark && n.left.is_none() && n.right.is_none(),
        None => false,
    }
}

#[test]
fn he_tree_has_a_dead_one_letter_branch() {
    let table = standard_table();
    let mut root = Box::new(Tree::empty());
    let t = analyze("he".to_string(), &table, &mut root).unwrap();
    assert_eq!(t.mark, Mark::Element(0));
    assert!(is_leaf_marked(&t.left, Mark::Dead));
    assert!(is_leaf_marked(&t.right, Mark::Element(1)));
}

#[test]
fn hina_tree_node_by_node() {
    let table = standard_table();
    let mut root = Box::new(Tree::empty());
    let t = analyze("hina".to_string(), &table, &mut root).unwrap();
    assert_eq!(t.mark, Mark::Element(0));
    assert!(t.right.is_none());
    let h = t.left.as_ref().unwrap();
    assert_eq!(h.mark, Mark::Element(0));
    let i = h.left.as_ref().unwrap();
    assert_eq!(i.mark, Mark::Element(52));
    assert!(is_leaf_marked(&i.left, Mark::Dead));
    assert!(is_leaf_marked(&i.right, Mark::Element(10)));
    assert!(is_leaf_marked(&h.right, Mark::Dead));
    assert_eq!(t.traverse(), vec![vec![0, 52, 10]]);
}

#[test]
fn two_runs_build_the_same_tree() {
    let table = standard_table();
    for word in ["genius", "hina", "he", "qqq", "chocolate"] {
        let mut b1 = Box::new(Tree::empty());
        let mut b2 = Box::new(Tree::empty());
        let r1 = analyze(word.to_string(), &table, &mut b1).unwrap();
        let r2 = analyze(word.to_string(), &table, &mut b2).unwrap();
        assert!(same_tree(&r1, &r2));
        assert!(same_tree(&b1, &b2));
        assert!(same_tree(&r1, &b1));
    }
}
