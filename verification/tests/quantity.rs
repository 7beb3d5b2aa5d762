use inventory_store::quantity::decimal_text;
use inventory_store::Quantity;

#[test]
fn one_piece_is_singular() {
    assert_eq!(Quantity::Pieces(1).to_text(), "1 piece");
}

#[test]
fn pieces_are_plural_otherwise() {
    assert_eq!(Quantity::Pieces(0).to_text(), "0 pieces");
    assert_eq!(Quantity::Pieces(2).to_text(), "2 pieces");
    assert_eq!(Quantity::Pieces(11).to_text(), "11 pieces");
}

#[test]
fn counts_carry_their_unit() {
    assert_eq!(Quantity::Kg(1).to_text(), "1 kg");
    assert_eq!(Quantity::G(1500).to_text(), "1500 g");
    assert_eq!(Quantity::Cans(1).to_text(), "1 cans");
    assert_eq!(Quantity::Packs(10).to_text(), "10 packs");
    assert_eq!(Quantity::Cans(u64::MAX).to_text(), "18446744073709551615 cans");
}

#[test]
fn free_text_stays_as_it_is() {
    assert_eq!(Quantity::Other("a handful".to_string()).to_text(), "a handful");
    assert_eq!(Quantity::Other(String::new()).to_text(), "");
}

#[test]
fn numerals_have_no_leading_zeros() {
    assert_eq!(decimal_text(0), "0");
    assert_eq!(decimal_text(9), "9");
    assert_eq!(decimal_text(10), "10");
    assert_eq!(decimal_text(1234567890), "1234567890");
    for n in [0u64, 7, 42, 100, 999, 1000, 65535, u64::MAX] {
        assert_eq!(decimal_text(n), n.to_string());
    }
}

#[test]
fn a_copy_reads_the_same() {
    let amount = Quantity::Other("some".to_string());
    assert_eq!(amount.clone().to_text(), amount.to_text());
    assert_eq!(Quantity::G(5).clone().to_text(), "5 g");
}
