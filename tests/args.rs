use seam_carver::args::{
    parse_comp, parse_debug_view_targets, parse_dim, parse_emit_list, resolve_dim, DimComp,
    DIM_FORM_ERR, EMIT_FORM_ERR,
};
use seam_carver::emit::plan_emissions;

#[test]
fn dim_absolute_components() {
    assert_eq!(
        parse_dim("300x200"),
        Ok((DimComp { is_rel: false, val: 300 }, DimComp { is_rel: false, val: 200 }))
    );
}

#[test]
fn dim_relative_and_preserved_components() {
    assert_eq!(
        parse_dim("?20x?-30"),
        Ok((DimComp { is_rel: true, val: 20 }, DimComp { is_rel: true, val: -30 }))
    );
    assert_eq!(
        parse_dim("300xP"),
        Ok((DimComp { is_rel: false, val: 300 }, DimComp { is_rel: true, val: 0 }))
    );
    assert_eq!(
        parse_dim("px+7"),
        Ok((DimComp { is_rel: true, val: 0 }, DimComp { is_rel: false, val: 7 }))
    );
}

#[test]
fn dim_malformed_is_rejected() {
    for bad in ["300", "300x200x1", "x200", "300x", "Px12a", "PPx1", "?x1", "3 x1", "-x1", "2147483648x1"] {
        assert_eq!(parse_dim(bad), Err(DIM_FORM_ERR.to_string()), "{}", bad);
    }
}

#[test]
fn dim_accepts_extreme_i32() {
    assert_eq!(
        parse_dim("2147483647x-2147483648"),
        Ok((DimComp { is_rel: false, val: i32::MAX }, DimComp { is_rel: false, val: i32::MIN }))
    );
}

#[test]
fn comp_forms() {
    assert_eq!(parse_comp("p"), Ok(DimComp { is_rel: true, val: 0 }));
    assert_eq!(parse_comp("?+5"), Ok(DimComp { is_rel: true, val: 5 }));
    assert_eq!(parse_comp(""), Err(DIM_FORM_ERR.to_string()));
    assert_eq!(parse_comp("?"), Err(DIM_FORM_ERR.to_string()));
}

#[test]
fn resolve_adds_offsets() {
    assert_eq!(resolve_dim(DimComp { is_rel: true, val: -30 }, 100), 70);
    assert_eq!(resolve_dim(DimComp { is_rel: false, val: 40 }, 100), 40);
    assert_eq!(resolve_dim(DimComp { is_rel: true, val: 0 }, 100), 100);
}

#[test]
fn emit_list_parses_numbers() {
    assert_eq!(parse_emit_list("1,2,30"), Ok(vec![1, 2, 30]));
    assert_eq!(parse_emit_list("+4"), Ok(vec![4]));
    assert_eq!(parse_emit_list("4294967295"), Ok(vec![u32::MAX]));
}

#[test]
fn emit_list_rejects_bad_pieces() {
    for bad in ["", "1,,2", "1,", "-1", "-0", "4294967296", "a"] {
        assert_eq!(parse_emit_list(bad), Err(EMIT_FORM_ERR.to_string()), "{}", bad);
    }
}

#[test]
fn view_targets_with_and_without_list() {
    assert_eq!(parse_debug_view_targets("out/e.png"), Ok(("out/e.png".to_string(), vec![0])));
    assert_eq!(parse_debug_view_targets("e.png:3,1"), Ok(("e.png".to_string(), vec![3, 1])));
    assert_eq!(parse_debug_view_targets("e.png:1:2"), Err(EMIT_FORM_ERR.to_string()));
    assert_eq!(parse_debug_view_targets("e.png:x"), Err(EMIT_FORM_ERR.to_string()));
}

#[test]
fn emissions_sorted_and_distinct() {
    assert_eq!(plan_emissions(&vec![3, 0, 1, 3, 2], 5), Ok((true, vec![1, 2, 3])));
    assert_eq!(plan_emissions(&vec![2, 2], 2), Ok((false, vec![2])));
    assert_eq!(plan_emissions(&vec![], 2), Ok((false, vec![])));
}

#[test]
fn emissions_beyond_the_last_step_are_reported() {
    assert_eq!(plan_emissions(&vec![9, 1, 7, 9], 5), Err(vec![7, 9]));
}
