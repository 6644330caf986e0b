use ncbitaxonomy::file_taxonomy::NcbiFileTaxonomy;
use ncbitaxonomy::interface::NcbiTaxonomy;
use ncbitaxonomy::models::Taxon;
use ncbitaxonomy::sqlite_taxonomy::NcbiSqliteTaxonomy;

fn node_line(id: u32, parent: u32, rank: &str) -> String {
    format!("{}\t|\t{}\t|\t{}\t|\t\t|", id, parent, rank)
}

fn name_line(id: u32, name: &str, unique: &str) -> String {
    format!("{}\t|\t{}\t|\t{}\t|\tscientific name\t|", id, name, unique)
}

/// A small fixture forest: the root, the Viruses superkingdom, and a
/// 500-taxon subtree under id 12333 ("unclassified bacterial viruses").
fn fixture() -> NcbiFileTaxonomy {
    let mut nodes = vec![
        node_line(1, 1, "no rank"),
        node_line(10239, 1, "superkingdom"),
        node_line(12333, 10239, "no rank"),
        node_line(504556, 12333, "species"),
        node_line(370556, 12333, "species"),
        node_line(12340, 12333, "no rank"),
    ];
    let mut names = vec![
        name_line(1, "root", ""),
        name_line(10239, "Viruses", ""),
        name_line(12333, "unclassified bacterial viruses", ""),
        name_line(504556, "Propionibacterium phage PAS7", ""),
        name_line(370556, "Streptococcus phage 9429.1", ""),
        name_line(12340, "environmental samples", "environmental samples <bacteriophages>"),
    ];
    for i in 0..496u32 {
        let id = 600000 + i;
        nodes.push(node_line(id, 12333, "species"));
        names.push(name_line(id, &format!("synthetic taxon {}", id), ""));
    }
    NcbiFileTaxonomy::from_dump_lines(&nodes, &names).expect("fixture must load")
}

/// The same fixture, exported and re-loaded as the persisted store.
fn sqlite_fixture() -> NcbiSqliteTaxonomy {
    let tree = fixture();
    let mut rows: Vec<Taxon> = Vec::new();
    for rec in tree.export_records() {
        rows.push(rec.into_taxon());
    }
    NcbiSqliteTaxonomy::new(&rows).expect("exported rows must validate")
}

#[test]
fn contains_id() {
    let taxonomy = fixture();
    assert!(taxonomy.contains_id(504556));
}

#[test]
fn sqlite_contains_id() {
    let taxonomy = sqlite_fixture();
    assert!(taxonomy.contains_id(504556));
}

#[test]
fn contains_name() {
    let taxonomy = fixture();
    assert!(taxonomy.contains_name("Propionibacterium phage PAS7"));
    assert!(taxonomy.contains_name("Viruses"));
    assert!(taxonomy.contains_name("environmental samples <bacteriophages>"));
}

#[test]
fn sqlite_contains_name() {
    let taxonomy = sqlite_fixture();
    assert!(taxonomy.contains_name("Propionibacterium phage PAS7"));
    assert!(taxonomy.contains_name("Viruses"));
    assert!(taxonomy.contains_name("environmental samples <bacteriophages>"));
}

#[test]
fn get_node_by_id() {
    let taxonomy = fixture();
    assert_eq!(taxonomy.get_node_by_id(999999999), None);
    assert!(match taxonomy.get_node_by_id(504556) {
        Some(_) => true,
        None => false,
    })
}

#[test]
fn get_id_by_node() {
    let taxonomy = fixture();
    let node_id = taxonomy.get_node_by_id(504556).unwrap();
    assert_eq!(taxonomy.get_id_by_node(node_id).unwrap(), 504556);
}

#[test]
fn get_name_by_id() {
    let taxonomy = fixture();
    assert_eq!(taxonomy.get_name_by_id(370556).unwrap(), "Streptococcus phage 9429.1");
}

#[test]
fn sqlite_get_name_by_id() {
    let taxonomy = sqlite_fixture();
    assert_eq!(taxonomy.get_name_by_id(370556).unwrap(), "Streptococcus phage 9429.1");
}

#[test]
fn traversal() {
    let taxonomy = fixture();
    match taxonomy.traversal(12333) {
        Some(visited) => {
            let mut counter = 0;
            for _id in visited.iter() {
                counter += 1;
            }
            assert_eq!(counter, 500)
        },
        None => assert_eq!(true, false, "Failed to load traversal from 12333"),
    }
}

#[test]
fn descendants() {
    let taxonomy = fixture();
    assert!(taxonomy.is_descendant("Propionibacterium phage PAS7", "unclassified bacterial viruses"));
}

#[test]
fn sqlite_descendants() {
    let taxonomy = sqlite_fixture();
    assert!(taxonomy.is_descendant("Propionibacterium phage PAS7", "unclassified bacterial viruses"));
}

#[test]
fn taxid_descendants() {
    let taxonomy = fixture();
    assert!(taxonomy.is_descendant_taxid(504556, 12333));
}

#[test]
fn sqlite_taxid_descendants() {
    let taxonomy = sqlite_fixture();
    assert!(taxonomy.is_descendant_taxid(504556, 12333));
}

#[test]
fn unknown_ids_are_absence() {
    let taxonomy = fixture();
    assert!(!taxonomy.contains_id(999999999));
    assert!(!taxonomy.contains_name("no such taxon"));
    assert_eq!(taxonomy.get_name_by_id(999999999), None);
    assert_eq!(taxonomy.get_id_by_name("no such taxon"), None);
    assert!(!taxonomy.is_descendant_taxid(999999999, 12333));
    assert!(!taxonomy.is_descendant_taxid(504556, 999999999));
    assert_eq!(taxonomy.get_distance_to_common_ancestor_taxid(504556, 999999999, false), None);
    assert_eq!(taxonomy.get_distance_to_common_ancestor_taxid(999999999, 504556, false), None);
    assert_eq!(taxonomy.traversal(999999999), None);
}

#[test]
fn sqlite_unknown_ids_are_absence() {
    let taxonomy = sqlite_fixture();
    assert!(!taxonomy.contains_id(999999999));
    assert!(!taxonomy.contains_name("no such taxon"));
    assert_eq!(taxonomy.get_name_by_id(999999999), None);
    assert_eq!(taxonomy.get_distance_to_common_ancestor_taxid(504556, 999999999, true), None);
}

#[test]
fn distance_to_self_is_zero() {
    let taxonomy = fixture();
    assert_eq!(taxonomy.get_distance_to_common_ancestor_taxid(504556, 504556, false), Some(0));
    assert_eq!(taxonomy.get_distance_to_common_ancestor_taxid(504556, 504556, true), Some(0));
    // equality is answered before existence, so even an unknown id is
    // at distance zero from itself
    assert_eq!(
        taxonomy.get_distance_to_common_ancestor_taxid(999999999, 999999999, false),
        Some(0)
    );
}

#[test]
fn not_own_descendant() {
    let taxonomy = fixture();
    assert!(!taxonomy.is_descendant_taxid(504556, 504556));
    let persisted = sqlite_fixture();
    assert!(!persisted.is_descendant_taxid(504556, 504556));
}

#[test]
fn distance_to_direct_ancestor() {
    let taxonomy = fixture();
    // 12333 is the immediate parent of 504556
    assert_eq!(taxonomy.get_distance_to_common_ancestor_taxid(504556, 12333, false), Some(1));
    // siblings meet at their parent, one step above the second taxon
    assert_eq!(taxonomy.get_distance_to_common_ancestor_taxid(504556, 370556, false), Some(1));
    let persisted = sqlite_fixture();
    assert_eq!(persisted.get_distance_to_common_ancestor_taxid(504556, 12333, false), Some(1));
    assert_eq!(persisted.get_distance_to_common_ancestor_taxid(504556, 370556, false), Some(1));
}

#[test]
fn distance_by_name() {
    let taxonomy = fixture();
    assert_eq!(
        taxonomy.get_distance_to_common_ancestor(
            "Propionibacterium phage PAS7",
            "Streptococcus phage 9429.1",
            false
        ),
        Some(1)
    );
    assert_eq!(
        taxonomy.get_distance_to_common_ancestor("Propionibacterium phage PAS7", "no such", false),
        None
    );
}

#[test]
fn canonical_filter_changes_distance_not_existence() {
    // a forest whose only shared ancestors of 3 and 4 are non-canonical
    let nodes = vec![
        node_line(1, 1, "no rank"),
        node_line(2, 1, "no rank"),
        node_line(3, 2, "species"),
        node_line(4, 2, "species"),
    ];
    let names = vec![
        name_line(1, "top", ""),
        name_line(2, "middle", ""),
        name_line(3, "left", ""),
        name_line(4, "right", ""),
    ];
    let taxonomy = NcbiFileTaxonomy::from_dump_lines(&nodes, &names).unwrap();
    assert_eq!(taxonomy.get_distance_to_common_ancestor_taxid(3, 4, false), Some(1));
    assert_eq!(taxonomy.get_distance_to_common_ancestor_taxid(3, 4, true), None);
}

#[test]
fn both_backends_agree_on_descendants() {
    let taxonomy = fixture();
    let persisted = sqlite_fixture();
    let ids = [1, 10239, 12333, 504556, 370556, 12340, 600000, 600495, 999999999];
    for &a in ids.iter() {
        for &b in ids.iter() {
            assert_eq!(
                taxonomy.is_descendant_taxid(a, b),
                persisted.is_descendant_taxid(a, b),
                "backends disagree on ({}, {})",
                a,
                b
            );
            assert_eq!(
                taxonomy.get_distance_to_common_ancestor_taxid(a, b, false),
                persisted.get_distance_to_common_ancestor_taxid(a, b, false)
            );
            assert_eq!(
                taxonomy.get_distance_to_common_ancestor_taxid(a, b, true),
                persisted.get_distance_to_common_ancestor_taxid(a, b, true)
            );
        }
    }
}

#[test]
fn export_writes_parent_paths() {
    let tree = fixture();
    let recs = tree.export_records();
    let mut seen_root = false;
    let mut seen_leaf = false;
    for rec in recs.iter() {
        if rec.id == 1 {
            assert_eq!(rec.ancestry, None);
            seen_root = true;
        }
        if rec.id == 504556 {
            assert_eq!(rec.ancestry.as_deref(), Some("1/10239/12333"));
            assert_eq!(rec.name, "Propionibacterium phage PAS7");
            assert_eq!(rec.rank.as_deref(), Some("species"));
            seen_leaf = true;
        }
    }
    assert!(seen_root && seen_leaf);
}

#[test]
fn distances_step_toward_the_same_ancestor() {
    // a chain 1-2-3-4-5 and a second branch 1-6: the two walks from 5
    // and 6 meet at taxon 1 in both directions, and each reported
    // distance counts the steps of the second taxon's walk up to 1
    let nodes = vec![
        node_line(1, 1, "no rank"),
        node_line(2, 1, "no rank"),
        node_line(3, 2, "no rank"),
        node_line(4, 3, "no rank"),
        node_line(5, 4, "species"),
        node_line(6, 1, "species"),
    ];
    let names = vec![
        name_line(1, "top", ""),
        name_line(2, "a", ""),
        name_line(3, "b", ""),
        name_line(4, "c", ""),
        name_line(5, "deep leaf", ""),
        name_line(6, "shallow leaf", ""),
    ];
    let taxonomy = NcbiFileTaxonomy::from_dump_lines(&nodes, &names).unwrap();
    // walk from 6 reaches the shared ancestor 1 in one step
    assert_eq!(taxonomy.get_distance_to_common_ancestor_taxid(5, 6, false), Some(1));
    // walk from 5 reaches the same ancestor 1 in four steps
    assert_eq!(taxonomy.get_distance_to_common_ancestor_taxid(6, 5, false), Some(4));
    // when the second taxon is itself the ancestor met, the distance is
    // counted from the first taxon instead
    assert_eq!(taxonomy.get_distance_to_common_ancestor_taxid(5, 1, false), Some(4));
    assert_eq!(taxonomy.get_distance_to_common_ancestor_taxid(1, 5, false), Some(4));
}

#[test]
fn traversal_contains_the_subtree_only() {
    let taxonomy = fixture();
    let visited = taxonomy.traversal(12333).unwrap();
    assert!(visited.contains(&12333));
    assert!(visited.contains(&504556));
    assert!(visited.contains(&600495));
    assert!(!visited.contains(&10239));
    assert!(!visited.contains(&1));
}
