use candy_picker::schema::{
    ColMap, Schema, SchemaError, col_position, detect_schema, find_col, matcher_columns, normalize_name,
    normalize_names, period_names, trim_name, trim_names,
};

fn strings(v: &[&str]) -> Vec<String> {
    v.iter().map(|s| s.to_string()).collect()
}

#[test]
fn detects_fold_search_schema() {
    let h = trim_names(&strings(&["#id", " dm_new", "p0_new ", "acc_new", "S/N_new", "extra"]));
    let c = detect_schema(&h).unwrap();
    assert_eq!(
        c,
        ColMap { schema: Schema::FoldSearch, idx_period_like: 2, idx_dm: 1, idx_acc: 3, idx_snr: 4, is_period: true }
    );
}

#[test]
fn detects_pics_schema() {
    let h = strings(&["dm_opt", "f0_opt", "acc_opt", "sn_fold"]);
    let c = detect_schema(&h).unwrap();
    assert_eq!(c.schema, Schema::Pics);
    assert_eq!(c.idx_period_like, 1);
    assert_eq!(c.idx_snr, 3);
    assert!(!c.is_period);
}

#[test]
fn rejects_unknown_header() {
    let h = strings(&["p0_new", "dm_new", "acc_new"]);
    assert_eq!(detect_schema(&h), Err(SchemaError::UnsupportedHeader));
}

#[test]
fn find_col_prefers_earlier_names() {
    let h = strings(&["freq", "p0", "period", "p0"]);
    assert_eq!(find_col(&h, &strings(&["period", "p0"])), Some(2));
    assert_eq!(find_col(&h, &strings(&["x", "p0"])), Some(3));
    assert_eq!(find_col(&h, &strings(&["x", "y"])), None);
    assert_eq!(find_col(&h, &period_names()), Some(2));
    assert_eq!(col_position(&h, &"p0".to_string()), Some(1));
}

#[test]
fn find_col_lowercases_names() {
    let h = normalize_names(&strings(&["#P0_new", "DM"]));
    assert_eq!(find_col(&h, &strings(&["period", "P0_NEW", "dm"])), Some(0));
    assert_eq!(find_col(&h, &strings(&["DM", "p0_new"])), Some(1));
    assert_eq!(find_col(&h, &strings(&["f0"])), None);
}

#[test]
fn matcher_columns_take_last_duplicate() {
    let h = normalize_names(&strings(&["DM", "p0", "#dm", "P0"]));
    let cols = matcher_columns(&h);
    assert_eq!(cols.dm, Some(2));
    assert_eq!(cols.period, Some(3));
    assert_eq!(cols.freq, None);
}

#[test]
fn normalizes_header_names() {
    assert_eq!(normalize_name(&"  #P0_New ".to_string()), "p0_new");
    assert_eq!(normalize_name(&"ACC".to_string()), "acc");
    assert_eq!(trim_name(&" S/N_new\t".to_string()), "S/N_new");
    let h = normalize_names(&strings(&["#ID", " F0_Opt", "DM", "Acceleration "]));
    assert_eq!(h, strings(&["id", "f0_opt", "dm", "acceleration"]));
    let cols = matcher_columns(&h);
    assert_eq!(cols.period, None);
    assert_eq!(cols.freq, Some(1));
    assert_eq!(cols.dm, Some(2));
    assert_eq!(cols.acc, Some(3));
}
