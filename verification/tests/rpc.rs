use xi_editor::rpc::{params_to_drop, LineRange, MouseAction, ParamsShape};

#[test]
fn mouse_action_params() {
    let a = MouseAction::from_params(&vec![6, 0, 0, 1]);
    assert_eq!(a, MouseAction { line: 6, column: 0, flags: 0, click_count: Some(1) });
    let b = MouseAction::from_params(&vec![17, 15, 0]);
    assert_eq!(b, MouseAction { line: 17, column: 15, flags: 0, click_count: None });
    let c = MouseAction::from_params(&vec![1, 2, 3, 4, 5]);
    assert_eq!(c.click_count, None);
    assert_eq!(a.to_params(), (6, 0, 0, Some(1)));
    assert_eq!(b.to_params(), (17, 15, 0, None));
    let (l, col, f, cc) = a.to_params();
    assert_eq!(MouseAction::from_params(&vec![l, col, f, cc.unwrap()]), a);
}

#[test]
fn line_range_pairs() {
    let r = LineRange::from_pair(12, 52);
    assert_eq!(r, LineRange { first: 12, last: 52 });
    assert_eq!(r.to_pair(), (12, 52));
    assert_eq!(LineRange::from_pair(-1, 5).to_pair(), (-1, 5));
}

#[test]
fn params_dropping() {
    assert_eq!(params_to_drop(ParamsShape::Absent), Ok(false));
    assert_eq!(params_to_drop(ParamsShape::Object(0)), Ok(true));
    assert_eq!(params_to_drop(ParamsShape::Object(2)), Ok(false));
    assert_eq!(params_to_drop(ParamsShape::Array(0)), Ok(true));
    assert_eq!(params_to_drop(ParamsShape::Array(1)), Ok(false));
    assert_eq!(
        params_to_drop(ParamsShape::Other),
        Err("'params' field, if present, must be object or array.".to_string())
    );
}
