use oraiswap_staking::amount::{get_cw20_denom, Amount};

#[test]
fn parse_amount() {
    // native denom
    let res = Amount::from_parts("ucosm".to_string(), 1u8.into());

    assert_eq!("ucosm", res.denom());
    assert_eq!(1u128, res.amount());

    // cw20 token
    let res = Amount::from_parts("cw20:my-token".to_string(), 1u8.into());

    assert_eq!("cw20:my-token", res.denom());
    assert_eq!(1u128, res.amount());
}

#[test]
fn cw20_denom_is_prefix_and_address() {
    assert_eq!(get_cw20_denom("my-token"), "cw20:my-token");
    assert_eq!(get_cw20_denom(""), "cw20:");
}
