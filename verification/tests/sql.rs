use xml_proc::mapping::mapping;
use xml_proc::pattern::Pattern;
use xml_proc::scanner::scanner;
use xml_proc::sql::{e2pz, masterball, mrclean, mrpropre, omega, omega_checked, red, ColumnMap};
use xml_proc::sql::{
    backtick_slice, column_from_groups, inner_checked, masterball_checked, propre_checked,
    table_from_groups,
};
use xml_proc::text::{contains_str, ends_with_semicolon, key_less, same_str, split_char};

fn dump() -> String {
    [
        "-- dump",
        "CREATE TABLE `users` (",
        "  `id` int NOT NULL AUTO_INCREMENT,",
        "  `name` varchar(255) DEFAULT NULL,",
        "  PRIMARY KEY (`id`)",
        ") ENGINE=InnoDB;",
        "",
        "CREATE TABLE `orders` (\r",
        "  `id` int NOT NULL,",
        "  `user_id` int DEFAULT NULL,",
        "  PRIMARY KEY (`id`),",
        "  KEY `fk_user` (`user_id`),",
        "  CONSTRAINT `fk_user` FOREIGN KEY (`user_id`) REFERENCES `users` (`id`)",
        ") ENGINE=InnoDB;  ",
        "",
    ]
    .join("\n")
}

#[test]
fn scanner_cuts_statements() {
    let text = dump();
    let groups = scanner(&text, "CREATE");
    assert_eq!(groups.len(), 2);
    assert_eq!(
        groups[0],
        vec![
            "CREATE TABLE `users` (",
            "  `id` int NOT NULL AUTO_INCREMENT,",
            "  `name` varchar(255) DEFAULT NULL,",
            "  PRIMARY KEY (`id`)",
            ") ENGINE=InnoDB;",
        ]
    );
    assert_eq!(groups[1][0], "CREATE TABLE `orders` (");
    assert_eq!(groups[1].len(), 7);
    assert_eq!(groups[1][6], ") ENGINE=InnoDB;  ");
}

#[test]
fn scanner_group_without_semicolon_runs_to_the_end() {
    let groups = scanner("a x\nb\nc", "x");
    assert_eq!(groups, vec![vec!["a x", "b", "c"]]);
}

#[test]
fn scanner_repeated_line_goes_on_from_its_own_place() {
    let text = "x\n1;\nx\n2;\n";
    let groups = scanner(text, "x");
    assert_eq!(groups, vec![vec!["x", "1;"], vec!["x", "2;"]]);
    let groups = scanner("CREATE a\nx;\nCREATE a\ny;", "CREATE");
    assert_eq!(groups, vec![vec!["CREATE a", "x;"], vec!["CREATE a", "y;"]]);
}

#[test]
fn scanner_no_match_gives_nothing() {
    assert!(scanner("abc\ndef", "zzz").is_empty());
    assert!(scanner("", "").is_empty());
}

#[test]
fn red_reads_tables_and_columns() {
    let text = dump();
    let groups = scanner(&text, "CREATE");
    let column = red(&groups).unwrap();
    assert_eq!(
        column,
        vec![
            ("users", vec![("id", "int"), ("name", "varchar(255)")]),
            ("orders", vec![("id", "int"), ("user_id", "int")]),
        ]
    );
}

#[test]
fn red_later_table_replaces_earlier() {
    let groups = vec![
        vec!["CREATE TABLE `t` (", "  `a` int,"],
        vec!["CREATE TABLE `u` (", "  `c` int,"],
        vec!["CREATE TABLE `t` (", "  `b` text,"],
        vec!["no table here"],
    ];
    let column = red(&groups).unwrap();
    assert_eq!(column, vec![("t", vec![("b", "text")]), ("u", vec![("c", "int")])]);
}

#[test]
fn mrclean_keeps_key_lines() {
    let text = dump();
    let groups = scanner(&text, "CREATE");
    let foreign = mrclean(&groups, "CONSTRAINT").unwrap();
    assert_eq!(
        foreign,
        vec![vec![
            "orders",
            "fk_user` FOREIGN KEY (`user_id`) REFERENCES `users` (`id",
        ]]
    );
    let primary = mrclean(&groups, "PRIMARY").unwrap();
    assert_eq!(primary, vec![vec!["users", "id"], vec!["orders", "id"]]);
}

#[test]
fn mrclean_refuses_a_bad_pattern() {
    let groups = vec![vec!["has ( here", "("]];
    assert_eq!(mrclean(&groups, "("), None);
}

#[test]
fn mrclean_refuses_a_line_it_cannot_cut() {
    let groups = vec![vec!["KEY `only_one", "KEY x"]];
    assert_eq!(mrclean(&groups, "KEY"), None);
}

#[test]
fn mrpropre_cuts_between_backticks() {
    let re = Pattern::compile("^\\s*X").unwrap();
    let input = vec!["first `a` line", "X `b`", "no", "  X c"];
    assert_eq!(mrpropre(&input, &re), vec!["a", "b", " X c"]);
}

#[test]
fn masterball_ignores_group_without_table() {
    let line = Pattern::compile("^\\s*`").unwrap();
    let col = Pattern::compile("`([^`]+)`\\s+([^,\\s]+)").unwrap();
    let mut map: ColumnMap = Vec::new();
    masterball(&vec!["nothing", "`a` int"], &line, &col, &mut map);
    assert!(map.is_empty());
    masterball(&vec!["CREATE `t` (", "`a` int,", "`b`"], &line, &col, &mut map);
    assert_eq!(map, vec![("t", vec![("a", "int")])]);
}

#[test]
fn omega_links_keys() {
    let text = dump();
    let groups = scanner(&text, "CREATE");
    let column = red(&groups).unwrap();
    let foreign = mrclean(&groups, "CONSTRAINT").unwrap();
    let primary = mrclean(&groups, "PRIMARY").unwrap();
    assert!(omega_checked(&column, &foreign, &primary));
    let tables = omega(column, foreign, primary);
    assert_eq!(tables.len(), 2);
    assert_eq!(tables[0].name, "users");
    assert!(tables[0].column[0].is_primary_key);
    assert!(!tables[0].column[1].is_primary_key);
    assert!(!tables[0].column[1].is_foreign_key);
    assert_eq!(tables[1].name, "orders");
    let user_id = &tables[1].column[1];
    assert_eq!(user_id.name, "user_id");
    assert_eq!(user_id.data_type, "int");
    assert!(user_id.is_foreign_key);
    assert!(!user_id.is_primary_key);
    assert_eq!(user_id.references_table, Some("users"));
    assert_eq!(user_id.references_column, Some("id"));
    assert_eq!(
        format!("{:?}", tables[1].column[0]),
        "TableColumn { name: \"id\", data_type: \"int\", is_primary_key: true, is_foreign_key: false, references_table: None, references_column: None }"
    );
}

#[test]
fn omega_checked_refuses_short_constraint() {
    let column: ColumnMap = vec![("t", vec![("a", "int")])];
    let foreign = vec![vec!["t", "a`b`c"]];
    let primary: Vec<Vec<&str>> = vec![];
    assert!(!omega_checked(&column, &foreign, &primary));
    let bad_primary = vec![vec!["t"]];
    assert!(!omega_checked(&column, &vec![], &bad_primary));
    let empty_primary = vec![vec![]];
    assert!(!omega_checked(&column, &vec![], &empty_primary));
}

#[test]
fn e2pz_first_reference_wins() {
    let column: ColumnMap = vec![("t", vec![("a", "int"), ("b", "int")])];
    let foreign = vec![("t", vec![("a", "x", "y"), ("a", "p", "q")])];
    let primary = vec![vec!["t", "b"], vec!["u"]];
    let tables = e2pz(column, primary, foreign);
    assert_eq!(tables[0].column[0].references_table, Some("x"));
    assert_eq!(tables[0].column[0].references_column, Some("y"));
    assert!(!tables[0].column[0].is_primary_key);
    assert!(tables[0].column[1].is_primary_key);
}

#[test]
fn mapping_document() {
    let doc = mapping().to_string();
    assert_eq!(
        doc,
        "<?xml version = \"1.0\" encoding = \"UTF-8\"?>\n\
<MapSet forSchema=\"https://www.worldline.com/namespaces/fs/ita/3ds/acs/business/config/v1/profileset\">\n\
\t<Mapping sourceNodePath=\"acspst:ProfileSet\" targetTable=\"SQL:ProfileSet\" />\n\
</MapSet>\n"
    );
}

#[test]
fn text_helpers() {
    assert!(contains_str("hello world", "o w"));
    assert!(contains_str("abc", ""));
    assert!(!contains_str("abc", "abcd"));
    assert!(!contains_str("abc", "ac"));
    assert!(ends_with_semicolon("x;  \t"));
    assert!(!ends_with_semicolon("x; y"));
    assert!(!ends_with_semicolon("   "));
    assert!(same_str("é", "é"));
    assert!(!same_str("a", "ab"));
    assert!(key_less("a", "b"));
    assert!(key_less("a", "ab"));
    assert!(!key_less("b", "b"));
    assert!(key_less("z", "é"));
    assert_eq!(split_char("a`b``c", '`'), vec!["a", "b", "", "c"]);
    assert_eq!(split_char("", '`'), vec![""]);
}

#[test]
fn checks_and_group_readers() {
    assert!(inner_checked("a `b` c"));
    assert!(!inner_checked("only ` one"));
    assert!(inner_checked("xyz"));
    assert!(!inner_checked(""));
    assert!(!inner_checked("éa"));
    assert_eq!(backtick_slice("a `b` `c` d"), "b` `c");
    assert_eq!(backtick_slice("xyz"), "yz");
    let re = Pattern::compile("^K").unwrap();
    assert!(propre_checked(&vec!["`t`", "K `a`", "other `"], &re));
    assert!(!propre_checked(&vec!["`t`", "K `a"], &re));
    assert!(!propre_checked(&vec![], &re));
    let groups = vec![Some("`a` int"), Some("a"), None];
    assert_eq!(table_from_groups(&groups), "a");
    assert_eq!(table_from_groups(&vec![Some("x")]), "");
    assert_eq!(column_from_groups(&vec![Some("w"), Some("n"), Some("t")]), ("n", "t"));
    assert_eq!(column_from_groups(&vec![Some("w"), Some("n")]), ("n", ""));
    let line = Pattern::compile("^\\s*`").unwrap();
    let col = Pattern::compile("`([^`]+)`(\\s+([^,\\s]+))?").unwrap();
    assert!(masterball_checked(&vec!["`t` x", "`a` int"], &line, &col));
    assert!(masterball_checked(&vec!["nothing", "`a`"], &line, &col));
    assert!(!masterball_checked(&vec!["`t` x", "`a`"], &line, &col));
}
