use kino_dicts::Snowflake;
use kino_dicts::snowflake::EPOCH_MILLIS;

#[test]
fn ids_pack_time_and_sequence() {
    let mut s = Snowflake::new();
    let t = EPOCH_MILLIS + 5;
    assert_eq!(s.gen_id(t), 5 << 22);
    assert_eq!(s.gen_id(t), (5 << 22) | 1);
}

#[test]
fn ids_at_the_epoch_carry_only_the_sequence() {
    let mut s = Snowflake::new();
    assert_eq!(s.gen_id(EPOCH_MILLIS), 0);
    assert_eq!(s.gen_id(EPOCH_MILLIS), 1);
}

#[test]
fn sequence_wraps_after_its_13_bits() {
    let mut s = Snowflake::new();
    for _ in 0..8192 {
        s.gen_id(EPOCH_MILLIS);
    }
    assert_eq!(s.gen_id(EPOCH_MILLIS), 0);
}
