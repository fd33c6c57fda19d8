//! The permanent-id ledger.

use colorthief::codegen::ledger::{
    Ledger, LedgerError, LedgerRow, Refusal, assert_input_unchanged, parse_rows,
};
use colorthief::codegen::ledger_file::LEDGER_HEADER;

fn try_ledger(rows: &[(u16, &str, bool)]) -> Result<Ledger, LedgerError> {
    let rows: Vec<LedgerRow> = rows
        .iter()
        .map(|&(id, xkcd_color, retired)| LedgerRow {
            id,
            xkcd_color: xkcd_color.to_string(),
            retired,
        })
        .collect();
    Ledger::from_rows(rows, "test ledger")
}

fn ledger_with_liveness(rows: &[(u16, &str, bool)]) -> Ledger {
    match try_ledger(rows) {
        Ok(ledger) => ledger,
        Err(e) => panic!("refused: {e:?}"),
    }
}

fn ledger(rows: &[(u16, &str)]) -> Ledger {
    let rows: Vec<(u16, &str, bool)> = rows.iter().map(|&(id, name)| (id, name, false)).collect();
    ledger_with_liveness(&rows)
}

fn resolve(ledger: &mut Ledger, names: &[&str]) -> Vec<u16> {
    names
        .iter()
        .map(|name| match ledger.id_for(name) {
            Ok(id) => id,
            Err(e) => panic!("no id for {name:?}: {e:?}"),
        })
        .collect()
}

fn load(text: &str, bootstrap: bool) -> Result<Ledger, LedgerError> {
    Ledger::load(Some(text.to_string()), bootstrap, "test file")
}

fn loaded(text: &str) -> Ledger {
    match load(text, false) {
        Ok(ledger) => ledger,
        Err(e) => panic!("refused: {e:?}"),
    }
}

fn refusal(r: Result<Ledger, LedgerError>) -> LedgerError {
    match r {
        Ok(_) => panic!("accepted"),
        Err(e) => e,
    }
}

#[test]
fn existing_names_keep_their_ids() {
    let mut l = ledger(&[(1, "red"), (2, "green"), (3, "blue")]);
    assert_eq!(resolve(&mut l, &["red", "green", "blue"]), [1, 2, 3]);
    assert!(l.minted().is_empty(), "nothing new should have been minted");
    assert!(l.tombstones().is_empty());
}

#[test]
fn reordered_input_does_not_renumber() {
    let mut l = ledger(&[(1, "red"), (2, "green"), (3, "blue")]);
    assert_eq!(resolve(&mut l, &["blue", "red", "green"]), [3, 1, 2]);
    assert!(l.minted().is_empty());
}

#[test]
fn a_new_name_mints_above_the_high_water_mark() {
    let mut l = ledger(&[(1, "red"), (7, "green")]);
    assert_eq!(resolve(&mut l, &["red", "green", "violet"]), [1, 7, 8]);
    assert_eq!(l.minted(), vec![(8, "violet")]);
}

#[test]
fn a_retired_high_water_id_is_never_reminted() {
    let mut l = ledger(&[(1, "red"), (2, "green"), (3, "blue")]);
    assert_eq!(resolve(&mut l, &["red", "green", "violet"]), [1, 2, 4]);
    assert_eq!(l.tombstones(), vec![(3, "blue")]);
    assert_eq!(l.newly_retired(), vec![(3, "blue")]);
    assert_eq!(l.minted(), vec![(4, "violet")]);
    assert!(l.to_csv().contains("3,blue"), "the retired row must survive the rewrite");
}

#[test]
fn deleting_a_tombstone_lets_its_id_be_reminted() {
    let mut without_tombstone = ledger(&[(1, "red"), (2, "green")]);
    assert_eq!(
        resolve(&mut without_tombstone, &["red", "green", "violet"]),
        [1, 2, 3],
        "with blue's row deleted, 3 is handed to a different color",
    );

    let mut with_tombstone = ledger(&[(1, "red"), (2, "green"), (3, "blue")]);
    assert_eq!(
        resolve(&mut with_tombstone, &["red", "green", "violet"]),
        [1, 2, 4],
        "with the row kept, the same input mints 4 instead",
    );
}

#[test]
fn a_returning_name_recovers_its_original_id() {
    let mut gone = ledger(&[(1, "red"), (2, "green")]);
    assert_eq!(resolve(&mut gone, &["red"]), [1]);
    assert_eq!(gone.tombstones(), vec![(2, "green")]);

    let mut back = ledger_with_liveness(&[(1, "red", false), (2, "green", true)]);
    assert_eq!(resolve(&mut back, &["red", "green"]), [1, 2]);
    assert!(back.minted().is_empty(), "green must not be re-minted");
    assert_eq!(back.reactivated(), vec![(2, "green")]);
    assert!(
        back.newly_retired().is_empty(),
        "nothing left in this run, so the revival stands alone",
    );
    assert_eq!(back.assert_rename_resolved(false), Ok(()));
    assert_eq!(back.assert_revival_approved(true), Ok(()));
}

#[test]
fn an_unapproved_revival_is_refused() {
    let mut back = ledger_with_liveness(&[(1, "red", false), (2, "green", true)]);
    resolve(&mut back, &["red", "green"]);
    assert_eq!(back.assert_revival_approved(false), Err(Refusal::Revival));
}

#[test]
fn a_rename_split_across_two_runs_is_refused() {
    let mut run_n =
        ledger_with_liveness(&[(1, "red", false), (2, "grey", true), (3, "gray", false)]);
    resolve(&mut run_n, &["red"]);
    assert_eq!(run_n.newly_retired(), vec![(3, "gray")]);
    assert!(run_n.reactivated().is_empty());
    assert_eq!(run_n.assert_rename_resolved(false), Ok(()));
    assert_eq!(run_n.assert_revival_approved(false), Ok(()));

    let mut run_n1 =
        ledger_with_liveness(&[(1, "red", false), (2, "grey", true), (3, "gray", true)]);
    resolve(&mut run_n1, &["red", "grey"]);
    assert!(run_n1.newly_retired().is_empty());
    assert!(run_n1.minted().is_empty());
    assert_eq!(run_n1.reactivated(), vec![(2, "grey")]);
    assert_eq!(run_n1.assert_rename_resolved(false), Ok(()));
    assert_eq!(run_n1.assert_revival_approved(false), Err(Refusal::Revival));
}

#[test]
fn a_rename_is_refused_until_the_operator_resolves_it() {
    let mut l = ledger(&[(1, "red"), (2, "grey")]);
    resolve(&mut l, &["red", "gray"]);
    assert_eq!(l.assert_rename_resolved(false), Err(Refusal::RetireAndMint));
}

#[test]
fn a_rename_onto_a_tombstone_is_refused() {
    let mut l = ledger_with_liveness(&[(1, "red", false), (2, "grey", true), (3, "gray", false)]);
    resolve(&mut l, &["red", "grey"]);
    assert!(l.minted().is_empty(), "the whole point: this rename mints nothing");
    assert_eq!(l.newly_retired(), vec![(3, "gray")]);
    assert_eq!(l.reactivated(), vec![(2, "grey")]);
    assert_eq!(l.assert_rename_resolved(false), Ok(()));
    assert_eq!(l.assert_revival_approved(false), Err(Refusal::Revival));
}

#[test]
fn a_mint_after_an_older_retirement_needs_no_override() {
    let mut l = ledger_with_liveness(&[(1, "red", false), (2, "green", true)]);
    assert_eq!(resolve(&mut l, &["red", "violet"]), [1, 3]);
    assert_eq!(l.minted(), vec![(3, "violet")]);
    assert_eq!(
        l.tombstones(),
        vec![(2, "green")],
        "the old tombstone is still reported, and its id still burned",
    );
    assert!(
        l.newly_retired().is_empty(),
        "green retired in an earlier run, not in this one",
    );
    assert_eq!(l.assert_rename_resolved(false), Ok(()));
}

#[test]
fn mints_stay_unblocked_however_many_tombstones_have_accumulated() {
    let mut l = ledger_with_liveness(&[
        (1, "red", false),
        (2, "green", true),
        (3, "blue", true),
        (4, "grey", true),
    ]);
    assert_eq!(resolve(&mut l, &["red", "violet"]), [1, 5]);
    assert_eq!(l.tombstones().len(), 3);
    assert!(l.newly_retired().is_empty());
    assert_eq!(l.assert_rename_resolved(false), Ok(()));
}

#[test]
fn the_retired_column_round_trips() {
    let mut l = ledger(&[(1, "red"), (2, "green"), (3, "blue")]);
    resolve(&mut l, &["red", "blue"]);

    let serialized = l.to_csv();
    assert!(serialized.contains("1,red,false"));
    assert!(serialized.contains("2,green,true"), "green retired this run");
    assert!(serialized.contains("3,blue,false"));

    let reread = loaded(&serialized);
    assert_eq!(
        reread.loaded_live(),
        ["blue", "red"],
        "green must come back as a tombstone, not as a live row",
    );
    assert_eq!(reread.high_water(), 3, "the tombstone still burns its id");
}

#[test]
fn editing_the_name_in_place_preserves_the_id_and_clears_the_gate() {
    let mut l = ledger(&[(1, "red"), (2, "gray")]);
    assert_eq!(resolve(&mut l, &["red", "gray"]), [1, 2]);
    assert!(l.minted().is_empty());
    assert!(l.tombstones().is_empty());
    assert_eq!(l.assert_rename_resolved(false), Ok(()));
}

#[test]
fn unrelated_retire_and_mint_passes_with_the_flag() {
    let mut l = ledger(&[(1, "red"), (2, "grey")]);
    resolve(&mut l, &["red", "violet"]);
    assert_eq!(l.assert_rename_resolved(true), Ok(()));
}

#[test]
fn retiring_without_minting_is_unambiguous() {
    let mut l = ledger(&[(1, "red"), (2, "grey")]);
    resolve(&mut l, &["red"]);
    assert_eq!(l.assert_rename_resolved(false), Ok(()));
}

#[test]
fn minting_without_retiring_is_unambiguous() {
    let mut l = ledger(&[(1, "red")]);
    resolve(&mut l, &["red", "violet"]);
    assert_eq!(l.assert_rename_resolved(false), Ok(()));
}

#[test]
fn a_duplicate_id_is_rejected() {
    assert_eq!(
        refusal(try_ledger(&[(1, "red", false), (1, "green", false)])),
        LedgerError::DuplicateId {
            id: 1,
            first: "red".to_string(),
            second: "green".to_string(),
        },
    );
}

#[test]
fn a_duplicate_name_is_rejected() {
    assert_eq!(
        refusal(try_ledger(&[(1, "red", false), (2, "red", false)])),
        LedgerError::DuplicateName { name: "red".to_string(), first_id: 1, second_id: 2 },
    );
}

#[test]
fn the_reserved_id_zero_is_rejected() {
    assert_eq!(
        refusal(try_ledger(&[(0, "red", false)])),
        LedgerError::ReservedId { name: "red".to_string() },
    );
}

#[test]
fn exhausting_the_id_space_is_a_hard_error() {
    let mut l = ledger(&[(u16::MAX, "the last color")]);
    assert_eq!(resolve(&mut l, &["the last color"]), [u16::MAX]);
    assert_eq!(l.id_for("one too many"), Err(LedgerError::IdsExhausted));
}

#[test]
fn a_name_needing_quoting_round_trips() {
    let awkward = "red, orange \"vivid\"";
    let mut l = ledger(&[(1, "red")]);
    assert_eq!(resolve(&mut l, &["red", awkward]), [1, 2]);

    let reread = loaded(&l.to_csv());
    assert_eq!(reread.id_by_name(awkward), Some(2));
    assert_eq!(reread.high_water(), 2);
}

#[test]
fn parser_accepts_names_that_need_quoting() {
    let source = concat_lines();
    let l = loaded(&source);
    assert_eq!(l.id_by_name("plain name"), Some(1));
    assert_eq!(l.id_by_name("red, orange"), Some(2));
    assert_eq!(l.id_by_name("vivid \"blue\""), Some(3));
    assert_eq!(l.id_by_name("a name\n# not a comment"), Some(4));
    assert_eq!(l.high_water(), 4);
    assert_eq!(
        l.loaded_live(),
        ["a name\n# not a comment", "plain name", "red, orange"],
    );
}

fn concat_lines() -> String {
    [
        "# a comment prologue, skipped\n",
        "id,xkcd_color,retired\n",
        "1,plain name,false\n",
        "2,\"red, orange\",false\n",
        "3,\"vivid \"\"blue\"\"\",true\n",
        "4,\"a name\n# not a comment\",false\n",
    ]
    .concat()
}

#[test]
fn serialization_is_deterministic_and_id_ordered() {
    let mut a = ledger(&[(2, "green"), (1, "red")]);
    let mut b = ledger(&[(1, "red"), (2, "green")]);
    resolve(&mut a, &["red", "green"]);
    resolve(&mut b, &["green", "red"]);
    assert_eq!(a.to_csv(), b.to_csv());

    let body = a.to_csv();
    let red = body.find("1,red").expect("red row");
    let green = body.find("2,green").expect("green row");
    assert!(red < green, "rows must be sorted by id");
    assert!(body.ends_with('\n'));
    assert!(!body.contains('\r'), "the ledger is always LF");
}

#[test]
fn a_missing_ledger_is_refused_without_the_bootstrap_flag() {
    assert_eq!(refusal(Ledger::load(None, false, "nowhere")), LedgerError::Missing);
}

#[test]
fn an_empty_ledger_is_refused_without_the_bootstrap_flag() {
    let text = "# prologue\nid,xkcd_color\n";
    assert_eq!(refusal(load(text, false)), LedgerError::NoRows);
    assert!(load(text, true).is_ok());
}

#[test]
fn bootstrap_creates_an_empty_ledger() {
    let l = match Ledger::load(None, true, "nowhere") {
        Ok(l) => l,
        Err(e) => panic!("refused: {e:?}"),
    };
    assert_eq!(l.high_water(), 0);
    assert_eq!(l.id_by_name("red"), None);
    assert_eq!(l.to_csv(), LEDGER_HEADER);
    assert_eq!(l.source(), "nowhere");
}

#[test]
fn bootstrap_mints_from_one() {
    let mut l = match Ledger::load(None, true, "nowhere") {
        Ok(l) => l,
        Err(e) => panic!("refused: {e:?}"),
    };
    assert_eq!(resolve(&mut l, &["red", "green"]), [1, 2]);
}

#[test]
fn a_truncated_ledger_is_refused() {
    assert_eq!(
        refusal(load("# prologue\nid,xkcd_color,retired\n1,red,false\n2,gre", false)),
        LedgerError::Truncated,
    );
}

#[test]
fn a_truncated_ledger_would_otherwise_remint_the_lost_id() {
    let mut prefix = ledger(&[(1, "red")]);
    assert_eq!(
        resolve(&mut prefix, &["red", "violet"]),
        [1, 2],
        "with the second row lost, id 2 goes to a different color",
    );

    let mut whole = ledger(&[(1, "red"), (2, "green")]);
    assert_eq!(
        resolve(&mut whole, &["red", "violet"]),
        [1, 3],
        "with the row intact, the same input mints 3",
    );
}

#[test]
fn a_stale_run_refuses_to_commit_over_a_changed_ledger() {
    let before = "id,xkcd_color,retired\n1,red,false\n";
    let mut stale = loaded(before);
    resolve(&mut stale, &["red"]);
    assert_eq!(stale.assert_unchanged_on_disk(Some(before)), Ok(()));
    assert_eq!(
        stale.assert_unchanged_on_disk(Some(
            "id,xkcd_color,retired\n1,red,false\n2,green,false\n",
        )),
        Err(Refusal::LedgerChanged),
    );
    assert_eq!(stale.assert_unchanged_on_disk(None), Err(Refusal::LedgerChanged));
    let fresh = ledger(&[(1, "red")]);
    assert_eq!(fresh.assert_unchanged_on_disk(None), Ok(()));
    assert_eq!(fresh.assert_unchanged_on_disk(Some("")), Err(Refusal::LedgerChanged));
}

#[test]
fn a_stale_run_refuses_when_only_the_upstream_csv_moved() {
    let snapshot = "xkcd_color,xkcd_r\nred,255\n";
    assert_eq!(
        assert_input_unchanged(Some("xkcd_color,xkcd_r\nred,254\n"), snapshot),
        Err(Refusal::InputChanged),
    );
    assert_eq!(assert_input_unchanged(None, snapshot), Err(Refusal::InputChanged));
}

#[test]
fn an_untouched_upstream_csv_passes_the_input_check() {
    let snapshot = "xkcd_color,xkcd_r\nred,255\n";
    assert_eq!(assert_input_unchanged(Some(snapshot), snapshot), Ok(()));
}

#[test]
fn an_untouched_ledger_commits_normally() {
    let text = "id,xkcd_color,retired\n1,red,false\n";
    let mut l = loaded(text);
    resolve(&mut l, &["red", "violet"]);
    assert_eq!(l.assert_unchanged_on_disk(Some(text)), Ok(()));
    assert!(l.stage().contains("2,violet,false"), "the mint reached the file");
}

#[test]
fn the_ledger_file_is_exact() {
    let mut l = ledger(&[(2, "a \"b\", c"), (1, "red")]);
    resolve(&mut l, &["red", "new\nline"]);
    let body = "id,xkcd_color,retired\n1,red,false\n2,\"a \"\"b\"\", c\",true\n3,\"new\nline\",false\n";
    assert_eq!(l.to_csv(), format!("{LEDGER_HEADER}{body}"));
    assert_eq!(l.stage(), l.to_csv());
}

#[test]
fn running_again_changes_nothing() {
    let mut first = ledger(&[(4, "green"), (2, "red"), (9, "old")]);
    let ids = resolve(&mut first, &["violet", "red", "green"]);
    let text = first.to_csv();
    let mut second = loaded(&text);
    assert_eq!(resolve(&mut second, &["violet", "red", "green"]), ids);
    assert!(second.minted().is_empty());
    assert!(second.newly_retired().is_empty());
    assert!(second.reactivated().is_empty());
    assert_eq!(second.to_csv(), text);
}

#[test]
fn malformed_files_are_refused() {
    for text in [
        "id,xkcd_color,retired\nx,red,false\n",
        "id,xkcd_color,retired\n1,red,maybe\n",
        "id,xkcd_color,retired\n65536,red,false\n",
        "id,xkcd_color,retired\n1,red\n",
        "id,name,retired\n1,red,false\n",
        "id,id,xkcd_color,retired\n1,1,red,false\n",
    ] {
        assert_eq!(refusal(load(text, false)), LedgerError::Malformed, "{text:?}");
    }
}

#[test]
fn columns_are_found_by_name() {
    let header: Vec<String> = ["retired", "note", "id", "xkcd_color"]
        .iter()
        .map(|s| s.to_string())
        .collect();
    let row: Vec<String> = ["true", "x", "5", "teal"].iter().map(|s| s.to_string()).collect();
    let rows = match parse_rows(&header, &vec![row]) {
        Ok(rows) => rows,
        Err(e) => panic!("refused: {e:?}"),
    };
    assert_eq!(
        rows,
        vec![LedgerRow { id: 5, xkcd_color: "teal".to_string(), retired: true }],
    );
}
