use ncbitaxonomy::NcbiTaxonomyError;
use ncbitaxonomy::interface::NcbiTaxonomy;
use ncbitaxonomy::codec::{format_id, parse_ancestry, parse_id};
use ncbitaxonomy::file_taxonomy::NcbiFileTaxonomy;
use ncbitaxonomy::models::Taxon;
use ncbitaxonomy::parser::{parse_name_line, parse_node_line};
use ncbitaxonomy::sqlite_taxonomy::NcbiSqliteTaxonomy;

#[test]
fn decimal_round_trip() {
    assert_eq!(format_id(0), "0");
    assert_eq!(format_id(504556), "504556");
    assert_eq!(format_id(2147483647), "2147483647");
    assert_eq!(parse_id("0"), Some(0));
    assert_eq!(parse_id("504556"), Some(504556));
    assert_eq!(parse_id("2147483647"), Some(2147483647));
    assert_eq!(parse_id("2147483648"), None);
    assert_eq!(parse_id(""), None);
    assert_eq!(parse_id("-5"), None);
    assert_eq!(parse_id("12a"), None);
}

#[test]
fn ancestry_paths_parse() {
    let ids = parse_ancestry("1/10239/12333").unwrap();
    assert_eq!(ids, vec![1, 10239, 12333]);
    assert_eq!(parse_ancestry("1//2"), None);
    assert_eq!(parse_ancestry(""), None);
    assert_eq!(parse_ancestry("1/x"), None);
}

#[test]
fn node_lines_parse() {
    let (id, pid, rank) = parse_node_line("12333\t|\t10239\t|\tno rank\t|\t\t|").unwrap();
    assert_eq!((id, pid, rank.as_str()), (12333, 10239, "no rank"));
    // the trailing pipe-tab artifact lands beyond the fields read here
    assert!(matches!(
        parse_node_line("12333 10239 no rank"),
        Err(NcbiTaxonomyError::NodeFileFormatError(_))
    ));
    assert!(matches!(
        parse_node_line("x\t|\t10239\t|\tno rank\t|\t\t|"),
        Err(NcbiTaxonomyError::ParseIntError(_))
    ));
    assert!(matches!(
        parse_node_line("12333\t|\t-1\t|\tno rank\t|\t\t|"),
        Err(NcbiTaxonomyError::ParseIntError(_))
    ));
}

#[test]
fn name_lines_parse() {
    let row = parse_name_line("561\t|\tEscherichia\t|\t\t|\tscientific name\t|").unwrap();
    assert_eq!(row, Some((561, String::from("Escherichia"))));
    // a non-empty unique-name field overrides the name field
    let row = parse_name_line(
        "48479\t|\tenvironmental samples\t|\tenvironmental samples <bacteriophages>\t|\tscientific name\t|",
    )
    .unwrap();
    assert_eq!(
        row,
        Some((48479, String::from("environmental samples <bacteriophages>")))
    );
    // other name classes are skipped
    let row = parse_name_line("561\t|\tE. coli\t|\t\t|\tsynonym\t|").unwrap();
    assert_eq!(row, None);
    assert!(matches!(
        parse_name_line("561\t|\tEscherichia"),
        Err(NcbiTaxonomyError::NodeFileFormatError(_))
    ));
}

fn node_line(id: u32, parent: u32, rank: &str) -> String {
    format!("{}\t|\t{}\t|\t{}\t|\t\t|", id, parent, rank)
}

fn name_line(id: u32, name: &str) -> String {
    format!("{}\t|\t{}\t|\t\t|\tscientific name\t|", id, name)
}

#[test]
fn load_rejects_bad_node_lines() {
    let names: Vec<String> = vec![];
    let r = NcbiFileTaxonomy::from_dump_lines(&vec![String::from("1\t|\t1")], &names);
    assert!(matches!(r, Err(NcbiTaxonomyError::NodeFileFormatError(_))));
    let r = NcbiFileTaxonomy::from_dump_lines(&vec![node_line(1, 1, "no rank"),
        String::from("oops\t|\t1\t|\tno rank\t|\t\t|")], &names);
    assert!(matches!(r, Err(NcbiTaxonomyError::ParseIntError(_))));
}

#[test]
fn load_rejects_parent_cycles() {
    let nodes = vec![node_line(1, 1, "no rank"), node_line(2, 3, "no rank"), node_line(
        3,
        2,
        "no rank",
    )];
    let names: Vec<String> = vec![];
    let r = NcbiFileTaxonomy::from_dump_lines(&nodes, &names);
    assert!(matches!(r, Err(NcbiTaxonomyError::IntegrityError(_))));
}

#[test]
fn load_rejects_names_for_unknown_ids() {
    let nodes = vec![node_line(1, 1, "no rank")];
    let names = vec![name_line(7, "stranger")];
    let r = NcbiFileTaxonomy::from_dump_lines(&nodes, &names);
    assert!(matches!(r, Err(NcbiTaxonomyError::IntegrityError(_))));
}

#[test]
fn later_records_win() {
    let nodes = vec![
        node_line(1, 1, "no rank"),
        node_line(2, 1, "genus"),
        node_line(2, 1, "species"),
    ];
    let names = vec![name_line(1, "top"), name_line(2, "first name"), name_line(2, "second name")];
    let taxonomy = NcbiFileTaxonomy::from_dump_lines(&nodes, &names).unwrap();
    assert_eq!(taxonomy.get_name_by_id(2).unwrap(), "second name");
    // the earlier name still resolves in the name index, as a stale key
    assert_eq!(taxonomy.get_id_by_name("first name"), Some(2));
    assert_eq!(taxonomy.get_id_by_name("second name"), Some(2));
}

fn row(id: i32, ancestry: Option<&str>, name: &str, rank: Option<&str>) -> Taxon {
    Taxon {
        id,
        ancestry: ancestry.map(String::from),
        name: String::from(name),
        rank: rank.map(String::from),
    }
}

#[test]
fn store_rejects_broken_tables() {
    // duplicate ids
    let rows = vec![row(1, None, "a", None), row(1, None, "b", None)];
    assert!(matches!(
        NcbiSqliteTaxonomy::new(&rows),
        Err(NcbiTaxonomyError::IntegrityError(_))
    ));
    // an ancestry column that does not parse
    let rows = vec![row(1, None, "a", None), row(2, Some("1/x"), "b", None)];
    assert!(matches!(
        NcbiSqliteTaxonomy::new(&rows),
        Err(NcbiTaxonomyError::IntegrityError(_))
    ));
    // a chain that does not continue its parent's chain
    let rows = vec![
        row(1, None, "a", None),
        row(2, Some("1"), "b", None),
        row(3, Some("2"), "c", None),
    ];
    assert!(matches!(
        NcbiSqliteTaxonomy::new(&rows),
        Err(NcbiTaxonomyError::IntegrityError(_))
    ));
}

#[test]
fn duplicate_names_do_not_resolve() {
    let rows = vec![
        row(1, None, "top", None),
        row(2, Some("1"), "shared", Some("genus")),
        row(3, Some("1"), "shared", Some("genus")),
    ];
    let store = NcbiSqliteTaxonomy::new(&rows).unwrap();
    assert!(store.contains_id(2));
    assert!(!store.contains_name("shared"));
    assert_eq!(store.get_id_by_name("shared"), None);
    assert!(store.contains_name("top"));
}

#[test]
fn error_descriptions_name_the_failure() {
    let e = NcbiTaxonomyError::ParseIntError(String::from("abc"));
    assert_eq!(e.describe(), "failed to parse integer from string: abc");
}
