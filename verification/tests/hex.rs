use evo::ledger::observation_log::unhex;

#[test]
fn ascii_hex_decodes_pair_by_pair() {
    assert_eq!(unhex("4869"), "Hi");
    assert_eq!(unhex("e28094"), "—");
    assert_eq!(unhex("zz41"), "A");
    assert_eq!(unhex(""), "");
}

