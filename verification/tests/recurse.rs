use onetdns::honor::{honor_cd_active, with_honor_cd, HonorCd};

#[test]
fn honor_cd_scope_restores_nested_parent() {
    let state = HonorCd { active: false };
    with_honor_cd(&state, true, |state: &HonorCd| {
        assert!(honor_cd_active(state));
        with_honor_cd(state, false, |state: &HonorCd| assert!(!honor_cd_active(state)));
        assert!(honor_cd_active(state));
    });
    assert!(!honor_cd_active(&state));
}

#[test]
fn the_work_of_a_request_hands_its_result_back() {
    let state = HonorCd { active: true };
    assert_eq!(with_honor_cd(&state, false, |s: &HonorCd| (honor_cd_active(s), 7)), (false, 7));
    assert!(honor_cd_active(&state));
}
