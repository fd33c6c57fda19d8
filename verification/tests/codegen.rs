//! Planning the generated tables.

use colorthief::codegen::enums::{MAX_VARIANTS, plan_enum};
use colorthief::codegen::hierarchy::{Column, HierarchyRow, parse_color_or_neutral};
use colorthief::codegen::idents::{
    const_ident_from, enum_variant_ident, name_to_const_ident, spell_slashes, variant_ident_from,
};
use colorthief::codegen::ledger::{Ledger, LedgerError, Refusal};
use colorthief::codegen::options::{CodegenOptions, USAGE};
use colorthief::codegen::plan::{CodegenError, Plan, RowFault, codegen, plan_tables};
use colorthief::codegen::variants::{
    Variant, VariantError, collect_enum_variants, find_variant, merge_variants,
};

fn row(name: &str, family: &str, kind: &str, neutral: &str) -> HierarchyRow {
    HierarchyRow {
        xkcd_color: name.to_string(),
        xkcd_color_hex: "#123456".to_string(),
        xkcd_rgb: [1, 2, 3],
        design_color: name.to_string(),
        design_color_hex: "#123456".to_string(),
        design_rgb: [1, 2, 3],
        common_color: name.to_string(),
        common_color_hex: "#123456".to_string(),
        common_rgb: [1, 2, 3],
        color_family: family.to_string(),
        color_type: kind.to_string(),
        color_or_neutral: neutral.to_string(),
    }
}

fn rows() -> Vec<HierarchyRow> {
    vec![
        row("blue/green", "blue", "bright", "color"),
        row("blue green", "green", "pale", " color "),
        row("robin's egg", "blue", "pale", "color"),
        row("2nd grey", "gray", "plain", "neutral"),
    ]
}

fn strings(words: &[&str]) -> Vec<String> {
    words.iter().map(|w| w.to_string()).collect()
}

fn options() -> CodegenOptions {
    CodegenOptions::default()
}

fn plan_of(r: Result<Plan, CodegenError>) -> Plan {
    match r {
        Ok(plan) => plan,
        Err(e) => panic!("refused: {e:?}"),
    }
}

fn refusal(r: Result<Plan, CodegenError>) -> CodegenError {
    match r {
        Ok(_) => panic!("planned"),
        Err(e) => e,
    }
}

fn ledger(text: &str) -> Option<String> {
    Some(format!("id,xkcd_color,retired\n{text}"))
}

#[test]
fn names_become_constants() {
    assert_eq!(name_to_const_ident("blue/green"), "BLUE_SLASH_GREEN");
    assert_eq!(name_to_const_ident("blue green"), "BLUE_GREEN");
    assert_eq!(name_to_const_ident("bright red"), "BRIGHT_RED");
    assert_eq!(name_to_const_ident("2nd grey"), "C_2ND_GREY");
    assert_eq!(name_to_const_ident("!"), "");
    assert_eq!(spell_slashes("a/b//"), "a slash b slash  slash ");
    assert_eq!(const_ident_from("A'B_C-é"), "A_B_C__");
    assert_eq!(const_ident_from("9"), "C_9");
}

#[test]
fn values_become_variants() {
    assert_eq!(enum_variant_ident("yellow-green"), "YellowGreen");
    assert_eq!(enum_variant_ident("off white"), "OffWhite");
    assert_eq!(enum_variant_ident("3d"), "V_3d");
    assert_eq!(variant_ident_from("A_b'c"), "A_b_c");
    assert_eq!(variant_ident_from("0"), "V_0");
}

#[test]
fn identifiers_are_plain() {
    for s in ["", "9'é/", "été", "a b", "_x", "robin's egg"] {
        for ident in [name_to_const_ident(s), enum_variant_ident(s), const_ident_from(s)] {
            assert!(ident.chars().all(|c| c.is_ascii_alphanumeric() || c == '_'), "{ident:?}");
            assert!(!ident.starts_with(|c: char| c.is_ascii_digit()), "{ident:?}");
        }
    }
}

#[test]
fn the_last_column_says_color_or_neutral() {
    assert_eq!(parse_color_or_neutral("color"), Some(false));
    assert_eq!(parse_color_or_neutral(" neutral\t"), Some(true));
    assert_eq!(parse_color_or_neutral("Neutral"), None);
    assert_eq!(parse_color_or_neutral(""), None);
}

#[test]
fn variants_come_in_dictionary_order_each_once() {
    let found = collect_enum_variants(&rows(), Column::Family).expect("variants");
    let words: Vec<(&str, &str)> =
        found.iter().map(|v| (v.value.as_str(), v.ident.as_str())).collect();
    assert_eq!(words, [("blue", "Blue"), ("gray", "Gray"), ("green", "Green")]);
    let mut reversed = rows();
    reversed.reverse();
    assert_eq!(collect_enum_variants(&reversed, Column::Family), Ok(found));
    let kinds = collect_enum_variants(&rows(), Column::Kind).expect("variants");
    assert_eq!(find_variant(&kinds, "plain"), Some(2));
    assert_eq!(find_variant(&kinds, " plain"), None);
}

#[test]
fn every_variant_refusal_has_an_input() {
    let mut table = rows();
    table.push(row("x", " \t", "k", "color"));
    assert_eq!(
        collect_enum_variants(&table, Column::Family),
        Err(VariantError::Empty { row: 4 }),
    );
    table[4] = row("x", "!!", "k", "color");
    assert_eq!(
        collect_enum_variants(&table, Column::Family),
        Err(VariantError::NoIdent { row: 4 }),
    );
    table[4] = row("x", "Green", "k", "color");
    assert_eq!(
        collect_enum_variants(&table, Column::Family),
        Err(VariantError::Collision { row: 4, ident: "Green".to_string() }),
    );
}

#[test]
fn given_identifiers_decide_what_collides() {
    assert_eq!(
        merge_variants(&strings(&["b", "a", "b"]), &strings(&["X", "Y", "X"])),
        Ok(vec![
            Variant { value: "a".to_string(), ident: "Y".to_string() },
            Variant { value: "b".to_string(), ident: "X".to_string() },
        ]),
    );
    assert_eq!(
        merge_variants(&strings(&["b", "a"]), &strings(&["X", "X"])),
        Err(VariantError::Collision { row: 1, ident: "X".to_string() }),
    );
    assert_eq!(
        merge_variants(&strings(&["b", "a"]), &strings(&["X", ""])),
        Err(VariantError::NoIdent { row: 1 }),
    );
}

#[test]
fn options_are_off_unless_named() {
    assert_eq!(CodegenOptions::parse(&Vec::new()), Ok(options()));
    assert_eq!(
        CodegenOptions::parse(&strings(&["codegen", "--allow-revival", "--bootstrap-ledger"])),
        Ok(CodegenOptions {
            bootstrap_ledger: true,
            allow_retire_and_mint: false,
            allow_revival: true,
        }),
    );
    assert_eq!(
        CodegenOptions::parse(&strings(&["--allow-retire-and-mint", "--help", "--what"])),
        Err("--help".to_string()),
    );
    assert!(USAGE.contains("--allow-retire-and-mint"));
}

#[test]
fn an_enum_plan_is_exact() {
    let variants = vec![Variant { value: "off white".to_string(), ident: "OffWhite".to_string() }];
    let plan = plan_enum("Kind", &variants, "Summary", "color_type").expect("plan");
    assert_eq!(plan.name, "Kind");
    assert_eq!(
        plan.enum_doc,
        " Summary sourced from the upstream `color_hierarchy.csv` \n`color_type` column. Marked \
         `#[non_exhaustive]` so adding a \nnew upstream value is a non-breaking change for \
         downstream \nconsumers; call [`Kind::as_str`] to get the original \nstring back when you \
         need to feed it into a search index.",
    );
    assert_eq!(
        plan.as_str_doc,
        " The original `color_type` string for this variant — exactly what appears in \
         `color_hierarchy.csv`.",
    );
    assert_eq!(plan.variants[0].doc, " Variant for `off white`.");
    assert_eq!(plan.variants[0].ident, "OffWhite");
    assert_eq!(plan.variants[0].value, "off white");
    let many: Vec<Variant> = (0..=MAX_VARIANTS)
        .map(|i| Variant { value: format!("{i}"), ident: format!("V{i}") })
        .collect();
    assert!(plan_enum("Kind", &many, "", "").is_none());
    assert!(plan_enum("Kind", &many[..MAX_VARIANTS].iter().map(|v| Variant {
        value: v.value.clone(),
        ident: v.ident.clone(),
    }).collect(), "", "").is_some());
}

#[test]
fn a_plan_says_of_every_row_what_the_tables_say() {
    let known = ledger("1,blue green,false\n7,robin's egg,false\n");
    let plan = plan_of(codegen(&rows(), known, options(), "ledger"));
    assert_eq!(
        plan.idents,
        ["BLUE_SLASH_GREEN", "BLUE_GREEN", "ROBIN_S_EGG", "C_2ND_GREY"],
    );
    assert_eq!(plan.ids, [8, 1, 7, 9]);
    assert_eq!(plan.neutral, [false, false, false, true]);
    assert_eq!(plan.family_at, [0, 2, 0, 1]);
    assert_eq!(plan.kind_at, [0, 1, 1, 2]);
    assert_eq!(plan.by_id.len(), 10);
    assert_eq!(plan.by_id[1], Some(1));
    assert_eq!(plan.by_id[7], Some(2));
    assert_eq!(plan.by_id[8], Some(0));
    assert_eq!(plan.by_id[9], Some(3));
    assert_eq!(plan.by_id.iter().flatten().count(), 4);
    assert_eq!(plan.family_enum.name, "Family");
    assert_eq!(plan.family_enum.variants.len(), 3);
    assert_eq!(plan.kind_enum.name, "Kind");
    assert_eq!(plan.ledger.minted(), vec![(8, "blue/green"), (9, "2nd grey")]);
    assert!(plan.ledger.to_csv().ends_with(
        "id,xkcd_color,retired\n1,blue green,false\n7,robin's egg,false\n8,blue/green,false\n9,2nd grey,false\n",
    ));
}

#[test]
fn planning_again_from_the_written_ledger_gives_the_same_plan() {
    let bootstrap = CodegenOptions { bootstrap_ledger: true, ..options() };
    let first = plan_of(codegen(&rows(), None, bootstrap, "ledger"));
    assert_eq!(first.ids, [1, 2, 3, 4]);
    let text = first.ledger.to_csv();
    let second = plan_of(codegen(&rows(), Some(text.clone()), options(), "ledger"));
    assert_eq!(second.ids, first.ids);
    assert_eq!(second.by_id, first.by_id);
    assert_eq!(second.ledger.to_csv(), text);
}

#[test]
fn every_reason_against_a_plan_has_an_input() {
    let known = || ledger("1,blue green,false\n");
    assert_eq!(
        refusal(codegen(&Vec::new(), known(), options(), "")),
        CodegenError::NoEntries,
    );
    let with = |last: HierarchyRow| {
        let mut table = rows();
        table.push(last);
        table
    };
    assert_eq!(
        refusal(codegen(&with(row("x", "", "k", "color")), known(), options(), "")),
        CodegenError::Family(VariantError::Empty { row: 4 }),
    );
    assert_eq!(
        refusal(codegen(&with(row("x", "f", "", "color")), known(), options(), "")),
        CodegenError::Kind(VariantError::Empty { row: 4 }),
    );
    assert_eq!(
        refusal(codegen(&rows(), None, options(), "")),
        CodegenError::Ledger(LedgerError::Missing),
    );
    let faults = [
        (row("!", "blue", "pale", "color"), RowFault::NoIdent),
        (row("blue  green", "blue", "pale", "color"), RowFault::DuplicateIdent),
        (row("x", " blue", "pale", "color"), RowFault::UnlistedFamily),
        (row("x", "blue", "pale ", "color"), RowFault::UnlistedKind),
        (row("x", "blue", "pale", "colour"), RowFault::NotColorOrNeutral),
    ];
    for (last, fault) in faults {
        assert_eq!(
            refusal(codegen(&with(last), known(), options(), "")),
            CodegenError::Row { row: 4, fault },
        );
    }
    assert_eq!(
        refusal(codegen(&rows(), ledger("65534,old,true\n"), options(), "")),
        CodegenError::Row { row: 1, fault: RowFault::IdsExhausted },
    );
    assert_eq!(
        refusal(codegen(&rows(), ledger("3,gone,false\n"), options(), "")),
        CodegenError::Refused(Refusal::RetireAndMint),
    );
    assert_eq!(
        refusal(codegen(&rows(), ledger("3,2nd grey,true\n"), options(), "")),
        CodegenError::Refused(Refusal::Revival),
    );
    let allowed = CodegenOptions { allow_retire_and_mint: true, ..options() };
    assert!(codegen(&rows(), ledger("3,gone,false\n"), allowed, "").is_ok());
    let allowed = CodegenOptions { allow_revival: true, ..options() };
    assert!(codegen(&rows(), ledger("3,2nd grey,true\n"), allowed, "").is_ok());
}

#[test]
fn too_many_variants_are_refused_last() {
    let many: Vec<HierarchyRow> = (0..=MAX_VARIANTS)
        .map(|i| row(&format!("name {i}"), &format!("f{i}"), "plain", "color"))
        .collect();
    let bootstrap = CodegenOptions { bootstrap_ledger: true, ..options() };
    assert_eq!(
        refusal(codegen(&many, None, bootstrap, "")),
        CodegenError::TooManyVariants(Column::Family),
    );
    let many: Vec<HierarchyRow> = (0..=MAX_VARIANTS)
        .map(|i| row(&format!("name {i}"), "f", &format!("k{i}"), "color"))
        .collect();
    assert_eq!(
        refusal(codegen(&many, None, bootstrap, "")),
        CodegenError::TooManyVariants(Column::Kind),
    );
}

#[test]
fn given_constants_decide_what_is_a_duplicate() {
    let start = || match Ledger::load(None, true, "") {
        Ok(l) => l,
        Err(e) => panic!("refused: {e:?}"),
    };
    let families = collect_enum_variants(&rows(), Column::Family).expect("variants");
    let kinds = collect_enum_variants(&rows(), Column::Kind).expect("variants");
    let plan = plan_of(plan_tables(
        &rows(),
        strings(&["A", "B", "C", "D"]),
        &families,
        &kinds,
        start(),
        options(),
    ));
    assert_eq!(plan.ids, [1, 2, 3, 4]);
    assert_eq!(
        refusal(plan_tables(
            &rows(),
            strings(&["A", "B", "A", ""]),
            &families,
            &kinds,
            start(),
            options(),
        )),
        CodegenError::Row { row: 2, fault: RowFault::DuplicateIdent },
    );
}
