use bsim::circuit::BCircuit;
use bsim::quine_mccluskey::{prime_implicants, qm_simplify_many, qm_simplify_one};
use bsim::table::{bitwise_counter, Table};

#[test]
fn qm() {
    let mut tt = Table::<char>::new();
    tt.set_columns(
        vec!["A", "B", "C", "D", "a", "b", "c", "d", "e", "f", "g"]
            .iter()
            .map(|v| v.to_string())
            .collect(),
    )
    .unwrap();
    let rows = vec![
        vec!['0', '0', '0', '0', '1', '1', '1', '1', '1', '1', '0'], // 0
        vec!['0', '0', '0', '1', '0', '1', '1', '0', '0', '0', '0'], // 1
        vec!['0', '0', '1', '0', '1', '1', '0', '1', '1', '0', '1'], // 2
        vec!['0', '0', '1', '1', '1', '1', '1', '1', '0', '0', '1'], // 3
        vec!['0', '1', '0', '0', '0', '1', '1', '0', '0', '1', '1'], // 4
        vec!['0', '1', '0', '1', '1', '0', '1', '1', '0', '1', '1'], // 5
        vec!['0', '1', '1', '0', '1', '0', '1', '1', '1', '1', '1'], // 6
        vec!['0', '1', '1', '1', '1', '1', '1', '0', '0', '0', '0'], // 7
        vec!['1', '0', '0', '0', '1', '1', '1', '1', '1', '1', '1'], // 8
        vec!['1', '0', '0', '1', '1', '1', '1', '1', '0', '1', '1'], // 9
    ];

    tt.set_rows(rows).unwrap();
    let outs = vec!["a", "b", "c", "d", "e", "f", "g"];
    let res = qm_simplify_many(&tt, &vec!["A", "B", "C", "D"], &outs);
    for i in 0..outs.len() {
        println!("{} = {};", outs[i], res[i]);
    }
    assert_eq!(res.len(), 7);
    // segment e is lit for 0, 2, 6 and 8
    assert_eq!(res[4], "!A.!B.!D+!A.C.!D+!B.!C.!D");
}

fn majority_table() -> Table<char> {
    let mut tt = Table::<char>::new();
    tt.set_columns(vec!["A".to_string(), "B".to_string(), "C".to_string(), "F".to_string()])
        .unwrap();
    let mut rows = Vec::new();
    for bits in bitwise_counter(3) {
        let ones = bits.iter().filter(|b| **b).count();
        let mut row: Vec<char> = bits.iter().map(|b| if *b { '1' } else { '0' }).collect();
        row.push(if ones >= 2 { '1' } else { '0' });
        rows.push(row);
    }
    tt.set_rows(rows).unwrap();
    tt
}

#[test]
fn qm_majority_is_three_pairs() {
    let tt = majority_table();
    let cubes = prime_implicants(&tt, &vec!["A", "B", "C"], "F");
    assert_eq!(cubes, vec![vec!['1', '1', '_'], vec!['1', '_', '1'], vec!['_', '1', '1']]);
    assert_eq!(qm_simplify_one(&tt, &vec!["A", "B", "C"], "F"), "A.B+A.C+B.C");
}

#[test]
fn qm_constant_outputs() {
    let mut tt = Table::<char>::new();
    tt.set_columns(vec!["A".to_string(), "T".to_string(), "Z".to_string()]).unwrap();
    tt.set_rows(vec![vec!['0', '1', '0'], vec!['1', '1', '0']]).unwrap();
    // always true: the one prime implicant mentions no variable
    assert_eq!(prime_implicants(&tt, &vec!["A"], "T"), vec![vec!['_']]);
    assert_eq!(qm_simplify_one(&tt, &vec!["A"], "T"), "");
    // never true: no prime implicant at all
    assert!(prime_implicants(&tt, &vec!["A"], "Z").is_empty());
    assert_eq!(qm_simplify_one(&tt, &vec!["A"], "Z"), "");
    // a column that the table lacks reads as zero
    assert!(prime_implicants(&tt, &vec!["A"], "missing").is_empty());
}

#[test]
fn qm_repeated_rows_count_once() {
    let mut tt = Table::<char>::new();
    tt.set_columns(vec!["A".to_string(), "F".to_string()]).unwrap();
    tt.set_rows(vec![vec!['1', '1'], vec!['1', '1'], vec!['0', '0']]).unwrap();
    assert_eq!(qm_simplify_one(&tt, &vec!["A"], "F"), "A");
}

fn sample_circuit() -> (BCircuit, i32) {
    let mut c = BCircuit::new();
    let i1 = c.add_input("A", true);
    let i2 = c.add_input("B", false);
    let i3 = c.add_input("C", true);

    let n1 = c.add_component("NOT", "not1").unwrap();
    let n2 = c.add_component("NOT", "not2").unwrap();
    let or = c.add_component("OR", "F1").unwrap();

    let a1 = c.add_component("AND", "AB").unwrap();
    let a2 = c.add_component("AND", "").unwrap();
    let a3 = c.add_component("AND", "").unwrap();

    c.connect(n1, 1, i1).unwrap();
    c.connect(n2, 1, i2).unwrap();
    c.connect(a1, 1, i1).unwrap();
    c.connect(a1, 2, i2).unwrap();
    c.connect(a2, 1, n1).unwrap();
    c.connect(a2, 2, n2).unwrap();
    c.connect(a3, 1, a2).unwrap();
    c.connect(a3, 2, i3).unwrap();
    c.connect(or, 1, a3).unwrap();
    c.connect(or, 2, a1).unwrap();

    c.track_output(or);
    c.compile();
    c.power_on();
    (c, or)
}

#[test]
fn truth_table_of_sample_circuit() {
    let (mut c, _) = sample_circuit();
    let t = c.gen_truth_table();
    assert_eq!(t.cols, vec!["A", "B", "C", "F1"]);
    assert_eq!(t.rows.len(), 8);
    let expected = ["0000", "0011", "0100", "0110", "1000", "1010", "1101", "1111"];
    for (row, want) in t.rows.iter().zip(expected.iter()) {
        assert_eq!(row.iter().collect::<String>(), *want);
    }
    assert_eq!(qm_simplify_one(&t, &vec!["A", "B", "C"], "F1"), "!A.!B.C+A.B");
}

#[test]
fn truth_table_twice_is_the_same_without_memory() {
    let (mut c, _) = sample_circuit();
    let first = c.gen_truth_table();
    let second = c.gen_truth_table();
    assert_eq!(first.cols, second.cols);
    assert_eq!(first.rows, second.rows);
}

#[test]
fn truth_table_of_flip_flop_has_next_state() {
    let mut c = BCircuit::new();
    let ff = c.add_component("JK", "Q").unwrap();
    let i1 = c.add_input("JJ", true);
    let i2 = c.add_input("KK", true);
    let clk = c.add_input("clk", false);
    c.clock(clk);
    c.connect(ff, 1, i1).unwrap();
    c.connect(ff, 2, i2).unwrap();
    c.connect(ff, 0, clk).unwrap();
    c.track_output(ff);
    c.compile();
    c.power_on();
    let t = c.gen_truth_table();
    // the columns stand in the order of their names, and each row reads as
    // its number across the columns of the drivers
    assert_eq!(t.cols, vec!["JJ", "KK", "Q(t)", "Q"]);
    assert_eq!(t.rows.len(), 8);
    let rows: Vec<String> = t.rows.iter().map(|r| r.iter().collect()).collect();
    // the state after the pulse is J.!Q + !K.Q
    assert_eq!(rows, vec!["0000", "0011", "0100", "0110", "1001", "1011", "1101", "1110"]);
}

#[test]
fn truth_table_counts_over_the_sorted_columns() {
    let mut c = BCircuit::new();
    c.power_on();
    let b = c.add_input("B", false);
    let a = c.add_input("A", false);
    let z = c.add_component("BFR", "z").unwrap();
    let y = c.add_component("NOT", "y").unwrap();
    c.connect(z, 1, b).unwrap();
    c.connect(y, 1, a).unwrap();
    c.track_output(z);
    c.track_output(y);
    let t = c.gen_truth_table();
    assert_eq!(t.cols, vec!["A", "B", "y", "z"]);
    let rows: Vec<String> = t.rows.iter().map(|r| r.iter().collect()).collect();
    // row 1 is A=0, B=1
    assert_eq!(rows, vec!["0010", "0111", "1000", "1101"]);
    assert_eq!(*t.get_val_at(1, "A"), '0');
    assert_eq!(*t.get_val_at(1, "B"), '1');
}

#[test]
fn bitwise_counter_counts_up_msb_first() {
    assert_eq!(bitwise_counter(0), vec![Vec::<bool>::new()]);
    assert_eq!(
        bitwise_counter(2),
        vec![vec![false, false], vec![false, true], vec![true, false], vec![true, true]]
    );
    assert_eq!(bitwise_counter(5).len(), 32);
    assert_eq!(bitwise_counter(5)[19], vec![true, false, false, true, true]);
}

#[test]
fn table_cells_by_name() {
    let mut t = Table::<char>::new();
    t.set_columns(vec!["x".to_string(), "y".to_string(), "x".to_string()]).unwrap();
    let i = t.add_row();
    assert_eq!(i, 0);
    assert_eq!(t.rows[0], vec!['\0', '\0', '\0']);
    t.set_val_at(0, "x", '1');
    t.set_val_at(0, "y", '0');
    // a repeated name means its last column
    assert_eq!(t.rows[0], vec!['\0', '0', '1']);
    assert_eq!(*t.get_val_at(0, "x"), '1');
    assert_eq!(t.column_index("x"), Some(2));
    assert_eq!(t.column_index("z"), None);
    assert_eq!(t.add_row(), 1);
}
