use join_tables::Dataset;
use join_tables::DonationInfo;
use join_tables::DonationLine;
use join_tables::DonorChunk;
use join_tables::DonorInfo;
use join_tables::JoinConfig;
use join_tables::JoinError;
use join_tables::amount::parse_amount;
use join_tables::build_donor_table;
use join_tables::get_indexes;
use join_tables::map_task;
use join_tables::partition;
use join_tables::run;

fn b(s: &str) -> Vec<u8> {
    s.as_bytes().to_vec()
}

fn config(chunk_size: usize) -> JoinConfig {
    JoinConfig {
        donor_id_col: b("Donor ID"),
        donor_state_col: b("Donor State"),
        donation_donor_id_col: b("Donor ID"),
        donation_amount_col: b("Donation Amount"),
        chunk_size,
    }
}

fn donor_lines(rows: &[(&str, &str)]) -> Vec<Vec<u8>> {
    let mut lines = vec![b("Donor ID,Donor State")];
    for (id, state) in rows {
        lines.push(b(&format!("{},{}", id, state)));
    }
    lines
}

fn donation_lines(rows: &[(&str, &str)]) -> Vec<Vec<u8>> {
    let mut lines = vec![b("Donor ID,Donation Amount")];
    for (id, amount) in rows {
        lines.push(b(&format!("{},{}", id, amount)));
    }
    lines
}

#[test]
fn basic_scenario_chunked() {
    let donors = donor_lines(&[("1", "NY"), ("2", "NY"), ("3", "CA")]);
    let donations = donation_lines(&[("1", "10"), ("2", "5"), ("3", "7"), ("9", "100")]);
    let result = run(&config(2), &donors, &donations).unwrap();
    assert_eq!(result.amount_for(&b("NY")), 1500);
    assert_eq!(result.amount_for(&b("CA")), 700);
    assert_eq!(result.amount_for(&b("TX")), 0);
    assert_eq!(result.len(), 2);
}

#[test]
fn result_invariant_to_chunk_size() {
    let donors = donor_lines(&[("1", "NY"), ("2", "NY"), ("3", "CA"), ("4", "WA"), ("5", "CA")]);
    let donations = donation_lines(&[
        ("1", "10.50"),
        ("2", "0.25"),
        ("3", "7"),
        ("4", "100"),
        ("5", "2.2"),
        ("1", "3"),
        ("9", "1000"),
    ]);
    let reference = run(&config(1), &donors, &donations).unwrap();
    for chunk_size in [2usize, 3, 4, 5, 100] {
        let result = run(&config(chunk_size), &donors, &donations).unwrap();
        for state in ["NY", "CA", "WA", "TX"] {
            assert_eq!(result.amount_for(&b(state)), reference.amount_for(&b(state)));
        }
        assert_eq!(result.len(), reference.len());
    }
}

#[test]
fn chunk_larger_than_donor_count_equals_chunk_of_one() {
    let donors = donor_lines(&[("1", "NY"), ("2", "CA")]);
    let donations = donation_lines(&[("1", "4"), ("2", "6.50")]);
    let small = run(&config(1), &donors, &donations).unwrap();
    let large = run(&config(1000), &donors, &donations).unwrap();
    assert_eq!(small.amount_for(&b("NY")), large.amount_for(&b("NY")));
    assert_eq!(small.amount_for(&b("CA")), large.amount_for(&b("CA")));
    assert_eq!(small.amount_for(&b("NY")), 400);
    assert_eq!(small.amount_for(&b("CA")), 650);
}

#[test]
fn unknown_donor_contributes_nothing() {
    let donors = donor_lines(&[("1", "NY")]);
    let donations = donation_lines(&[("1", "10"), ("7", "99"), ("8", "0.01")]);
    let result = run(&config(1), &donors, &donations).unwrap();
    assert_eq!(result.amount_for(&b("NY")), 1000);
    assert_eq!(result.len(), 1);
}

#[test]
fn non_numeric_amount_skipped_without_abort() {
    let donors = donor_lines(&[("1", "NY"), ("2", "NY")]);
    let donations = donation_lines(&[("1", "10"), ("2", "abc"), ("2", "5")]);
    let result = run(&config(2), &donors, &donations).unwrap();
    assert_eq!(result.amount_for(&b("NY")), 1500);
}

#[test]
fn empty_amount_field_skipped() {
    let donors = donor_lines(&[("1", "NY")]);
    let donations = donation_lines(&[("1", ""), ("1", "2")]);
    let result = run(&config(1), &donors, &donations).unwrap();
    assert_eq!(result.amount_for(&b("NY")), 200);
}

#[test]
fn missing_state_column_is_schema_error() {
    let mut donors = donor_lines(&[("1", "NY")]);
    donors[0] = b("Donor ID,Donor City");
    let donations = donation_lines(&[("1", "10")]);
    let result = run(&config(1), &donors, &donations);
    assert_eq!(result.unwrap_err(), JoinError::Schema { dataset: Dataset::Donors });
}

#[test]
fn missing_amount_column_is_schema_error() {
    let donors = donor_lines(&[("1", "NY")]);
    let mut donations = donation_lines(&[("1", "10")]);
    donations[0] = b("Donor ID,Project ID");
    let result = run(&config(1), &donors, &donations);
    assert_eq!(result.unwrap_err(), JoinError::Schema { dataset: Dataset::Donations });
}

#[test]
fn empty_datasets_are_schema_errors() {
    let none: Vec<Vec<u8>> = Vec::new();
    let donors = donor_lines(&[("1", "NY")]);
    let donations = donation_lines(&[("1", "10")]);
    assert_eq!(
        run(&config(1), &none, &donations).unwrap_err(),
        JoinError::Schema { dataset: Dataset::Donors }
    );
    assert_eq!(
        run(&config(1), &donors, &none).unwrap_err(),
        JoinError::Schema { dataset: Dataset::Donations }
    );
}

#[test]
fn short_donor_line_is_fatal_with_line_number() {
    let mut donors = donor_lines(&[("1", "NY")]);
    donors.push(b("2"));
    let donations = donation_lines(&[("1", "10")]);
    let result = run(&config(1), &donors, &donations);
    assert_eq!(
        result.unwrap_err(),
        JoinError::LineShape { dataset: Dataset::Donors, line: 2 }
    );
}

#[test]
fn short_donation_line_is_fatal_with_line_number() {
    let donors = donor_lines(&[("1", "NY")]);
    let mut donations = donation_lines(&[("1", "10")]);
    donations.push(b("9"));
    let result = run(&config(1), &donors, &donations);
    assert_eq!(
        result.unwrap_err(),
        JoinError::LineShape { dataset: Dataset::Donations, line: 2 }
    );
}

#[test]
fn header_only_datasets_give_empty_result() {
    let donors = donor_lines(&[]);
    let donations = donation_lines(&[]);
    let result = run(&config(3), &donors, &donations).unwrap();
    assert_eq!(result.len(), 0);
    assert_eq!(result.amount_for(&b("NY")), 0);
}

#[test]
fn duplicate_donor_id_first_record_wins() {
    let donors = donor_lines(&[("1", "NY"), ("1", "CA")]);
    let donations = donation_lines(&[("1", "10")]);
    let result = run(&config(1), &donors, &donations).unwrap();
    assert_eq!(result.amount_for(&b("NY")), 1000);
    assert_eq!(result.amount_for(&b("CA")), 0);
}

#[test]
fn duplicate_donor_id_across_chunks_counted_once() {
    let donors = donor_lines(&[("1", "NY"), ("2", "WA"), ("1", "CA")]);
    let donations = donation_lines(&[("1", "10")]);
    for chunk_size in [1usize, 2, 3] {
        let result = run(&config(chunk_size), &donors, &donations).unwrap();
        assert_eq!(result.amount_for(&b("NY")), 1000);
        assert_eq!(result.amount_for(&b("CA")), 0);
    }
}

#[test]
fn trailing_partial_chunk_is_not_lost() {
    let donors = donor_lines(&[("1", "NY"), ("2", "NY"), ("3", "CA")]);
    let donations = donation_lines(&[("3", "7")]);
    let result = run(&config(2), &donors, &donations).unwrap();
    assert_eq!(result.amount_for(&b("CA")), 700);
}

#[test]
fn get_indexes_resolves_positions() {
    let header = b("Project ID,Donation ID,Donor ID,Donation Amount");
    let r = get_indexes(&b("Donor ID"), &b("Donation Amount"), &header, Dataset::Donations);
    assert_eq!(r.unwrap(), (2, 3));
}

#[test]
fn get_indexes_missing_column_fails() {
    let header = b("Donor ID,Donor City");
    let r = get_indexes(&b("Donor ID"), &b("Donor State"), &header, Dataset::Donors);
    assert_eq!(r.unwrap_err(), JoinError::Schema { dataset: Dataset::Donors });
}

#[test]
fn get_indexes_first_occurrence_wins() {
    let header = b("Donor ID,Donor State,Donor State");
    let r = get_indexes(&b("Donor ID"), &b("Donor State"), &header, Dataset::Donors);
    assert_eq!(r.unwrap(), (0, 1));
}

#[test]
fn parse_amount_whole_and_fractional() {
    assert_eq!(parse_amount(&b("10")), Some(1000));
    assert_eq!(parse_amount(&b("10.5")), Some(1050));
    assert_eq!(parse_amount(&b("10.50")), Some(1050));
    assert_eq!(parse_amount(&b("0.05")), Some(5));
    assert_eq!(parse_amount(&b(".5")), Some(50));
    assert_eq!(parse_amount(&b("5.")), Some(500));
    assert_eq!(parse_amount(&b("0")), Some(0));
    assert_eq!(parse_amount(&b("+7")), Some(700));
    assert_eq!(parse_amount(&b("-3.25")), Some(-325));
    assert_eq!(parse_amount(&b("999999999999999")), Some(99_999_999_999_999_900));
}

#[test]
fn parse_amount_rejects_malformed_text() {
    assert_eq!(parse_amount(&b("abc")), None);
    assert_eq!(parse_amount(&b("")), None);
    assert_eq!(parse_amount(&b("-")), None);
    assert_eq!(parse_amount(&b(".")), None);
    assert_eq!(parse_amount(&b("1.234")), None);
    assert_eq!(parse_amount(&b("12.3.4")), None);
    assert_eq!(parse_amount(&b("12x")), None);
    assert_eq!(parse_amount(&b("1 0")), None);
    assert_eq!(parse_amount(&b("1234567890123456")), None);
}

#[test]
fn donor_from_line_extracts_fields() {
    let d = DonorInfo::from_line(0, 1, &b("abc123,NY,extra")).unwrap();
    assert_eq!(d.id, b("abc123"));
    assert_eq!(d.state, b("NY"));
    assert!(DonorInfo::from_line(0, 2, &b("abc123,NY")).is_none());
}

#[test]
fn donation_from_line_record_skip_and_short() {
    match DonationInfo::from_line(0, 1, &b("d1,2.50")) {
        DonationLine::Record(d) => {
            assert_eq!(d.donor_id, b("d1"));
            assert_eq!(d.amount, 250);
        }
        _ => panic!("expected a record"),
    }
    assert!(matches!(
        DonationInfo::from_line(0, 1, &b("d1,oops")),
        DonationLine::Skipped
    ));
    assert!(matches!(
        DonationInfo::from_line(0, 3, &b("d1,2.50")),
        DonationLine::Malformed
    ));
}

#[test]
fn build_donor_table_deduplicates() {
    let records = vec![
        DonorInfo { id: b("1"), state: b("NY") },
        DonorInfo { id: b("2"), state: b("CA") },
        DonorInfo { id: b("1"), state: b("WA") },
    ];
    let table = build_donor_table(&records);
    assert_eq!(table.entries.len(), 2);
    assert_eq!(table.lookup(&b("1")), Some(&b("NY")));
    assert_eq!(table.lookup(&b("2")), Some(&b("CA")));
    assert_eq!(table.lookup(&b("3")), None);
}

#[test]
fn partition_keeps_every_record_in_order() {
    let records = vec![
        DonorInfo { id: b("1"), state: b("NY") },
        DonorInfo { id: b("2"), state: b("CA") },
        DonorInfo { id: b("3"), state: b("WA") },
        DonorInfo { id: b("4"), state: b("TX") },
        DonorInfo { id: b("5"), state: b("OR") },
    ];
    let table = build_donor_table(&records);
    let chunks = partition(&table, 2);
    assert_eq!(chunks.len(), 3);
    assert_eq!(chunks[0].entries.len(), 2);
    assert_eq!(chunks[1].entries.len(), 2);
    assert_eq!(chunks[2].entries.len(), 1);
    assert_eq!(chunks[2].entries[0].id, b("5"));
}

#[test]
fn map_task_joins_one_chunk() {
    let chunk = DonorChunk {
        entries: vec![
            DonorInfo { id: b("1"), state: b("NY") },
            DonorInfo { id: b("2"), state: b("CA") },
        ],
    };
    let donations = donation_lines(&[("1", "10"), ("2", "5"), ("3", "100"), ("1", "junk")]);
    let partial =
        map_task(&chunk, &b("Donor ID"), &b("Donation Amount"), &donations).unwrap();
    assert_eq!(partial.amount_for(&b("NY")), 1000);
    assert_eq!(partial.amount_for(&b("CA")), 500);
    assert_eq!(partial.len(), 2);
}

#[test]
fn map_task_missing_header_is_schema_error() {
    let chunk = DonorChunk { entries: Vec::new() };
    let empty: Vec<Vec<u8>> = Vec::new();
    assert_eq!(
        map_task(&chunk, &b("Donor ID"), &b("Donation Amount"), &empty).unwrap_err(),
        JoinError::Schema { dataset: Dataset::Donations }
    );
}

#[test]
fn merge_sums_on_shared_states() {
    let mut a = join_tables::DonationsByState::new();
    a.add_amount(&b("NY"), 100);
    a.add_amount(&b("CA"), 7);
    let mut other = join_tables::DonationsByState::new();
    other.add_amount(&b("NY"), 50);
    other.add_amount(&b("WA"), 3);
    a.add_assign(other);
    assert_eq!(a.amount_for(&b("NY")), 150);
    assert_eq!(a.amount_for(&b("CA")), 7);
    assert_eq!(a.amount_for(&b("WA")), 3);
    assert_eq!(a.len(), 3);
}
