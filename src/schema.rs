use vstd::prelude::*;

verus! {

/// Position of the first header entry equal to `name`, searching from `i`.
pub open spec fn pos_from(header: Seq<String>, name: Seq<char>, i: int) -> Option<int>
    decreases header.len() - i,
{
    if i < 0 || i >= header.len() {
        None
    } else if header[i]@ == name {
        Some(i)
    } else {
        pos_from(header, name, i + 1)
    }
}

/// Position of the first entry equal to `name`.
pub open spec fn position(header: Seq<String>, name: Seq<char>) -> Option<int> {
    pos_from(header, name, 0)
}

/// Position of the last entry equal to `name` among the first `i`.
pub open spec fn last_before(header: Seq<String>, name: Seq<char>, i: int) -> Option<int>
    decreases i,
{
    if i <= 0 || i > header.len() {
        None
    } else if header[i - 1]@ == name {
        Some(i - 1)
    } else {
        last_before(header, name, i - 1)
    }
}

/// Position of the last entry equal to `name`: a header map built entry by
/// entry keeps the last of equal names.
pub open spec fn last_position(header: Seq<String>, name: Seq<char>) -> Option<int> {
    last_before(header, name, header.len() as int)
}

/// The first name of `names`, in order, that the header has, and the
/// position of its last entry.
pub open spec fn first_present(header: Seq<String>, names: Seq<Seq<char>>) -> Option<int>
    decreases names.len(),
{
    if names.len() == 0 {
        None
    } else {
        match last_position(header, names[0]) {
            Some(i) => Some(i),
            None => first_present(header, names.drop_first()),
        }
    }
}

pub open spec fn views(names: Seq<String>) -> Seq<Seq<char>> {
    names.map_values(|s: String| s@)
}

/// The names in ASCII lower case.
pub open spec fn lowered(names: Seq<String>) -> Seq<Seq<char>> {
    names.map_values(|s: String| ascii_lower(s@))
}

/// Position of the first header entry equal to `name`.
pub fn col_position(header: &Vec<String>, name: &String) -> (r: Option<usize>)
    ensures
        match r {
            Some(i) => position(header@, name@) == Some(i as int),
            None => position(header@, name@).is_none(),
        },
{
    let mut i: usize = 0;
    while i < header.len()
        invariant
            i <= header@.len(),
            position(header@, name@) == pos_from(header@, name@, i as int),
        decreases header@.len() - i,
    {
        if header[i] == *name {
            return Some(i);
        }
        i = i + 1;
    }
    None
}

/// Position of the last header entry equal to `name`.
fn last_col_position(header: &Vec<String>, name: &String) -> (r: Option<usize>)
    ensures
        match r {
            Some(i) => last_position(header@, name@) == Some(i as int),
            None => last_position(header@, name@).is_none(),
        },
{
    let mut i: usize = header.len();
    while i > 0
        invariant
            i <= header@.len(),
            last_position(header@, name@) == last_before(header@, name@, i as int),
        decreases i,
    {
        if header[i - 1] == *name {
            return Some(i - 1);
        }
        i = i - 1;
    }
    None
}

/// The first of `names`, in order, that the header has, at its last entry.
fn lookup_names(header: &Vec<String>, names: &Vec<String>) -> (r: Option<usize>)
    ensures
        match r {
            Some(i) => first_present(header@, views(names@)) == Some(i as int),
            None => first_present(header@, views(names@)).is_none(),
        },
{
    let mut k: usize = 0;
    assert(views(names@).skip(0) == views(names@));
    while k < names.len()
        invariant
            k <= names@.len(),
            first_present(header@, views(names@)) == first_present(header@, views(names@).skip(k as int)),
        decreases names@.len() - k,
    {
        let found = last_col_position(header, &names[k]);
        let ghost rest = views(names@).skip(k as int);
        assert(rest[0] == names@[k as int]@);
        assert(rest.drop_first() == views(names@).skip(k as int + 1));
        match found {
            Some(i) => {
                return Some(i);
            },
            None => {},
        }
        k = k + 1;
    }
    assert(views(names@).skip(k as int).len() == 0);
    None
}

/// Looks up a normalized header (see `normalize_names`): the first of
/// `names`, taken in order and in ASCII lower case, that the header has,
/// at its last entry.
pub fn find_col(header: &Vec<String>, names: &Vec<String>) -> (r: Option<usize>)
    ensures
        match r {
            Some(i) => first_present(header@, lowered(names@)) == Some(i as int),
            None => first_present(header@, lowered(names@)).is_none(),
        },
{
    let mut low: Vec<String> = Vec::new();
    let mut k: usize = 0;
    while k < names.len()
        invariant
            k <= names@.len(),
            low@.len() == k,
            forall|j: int| 0 <= j < k ==> (#[trigger] low@[j])@ == ascii_lower(names@[j]@),
        decreases names@.len() - k,
    {
        low.push(lower_text(names[k].as_str()));
        k = k + 1;
    }
    assert(views(low@) =~= lowered(names@));
    lookup_names(header, &low)
}

/// Which column set a candidate table uses.
#[derive(Clone, Copy, Debug, PartialEq, Eq, Structural)]
pub enum Schema {
    /// Folding output: `p0_new`, `dm_new`, `acc_new`, `S/N_new`.
    FoldSearch,
    /// Classifier output: `f0_opt`, `dm_opt`, `acc_opt`, `sn_fold`.
    Pics,
}

/// The columns of a table: where the period (or frequency), DM,
/// acceleration and SNR stand, and whether the first is a period.
#[derive(Clone, Copy, Debug, PartialEq, Eq, Structural)]
pub struct ColMap {
    pub schema: Schema,
    pub idx_period_like: usize,
    pub idx_dm: usize,
    pub idx_acc: usize,
    pub idx_snr: usize,
    pub is_period: bool,
}

/// Why a header was refused.
#[derive(Clone, Copy, Debug, PartialEq, Eq, Structural)]
pub enum SchemaError {
    /// Neither known column set is complete.
    UnsupportedHeader,
}

/// The column map of one schema, when the header has its four columns.
pub open spec fn schema_cols(header: Seq<String>, schema: Schema, p: Seq<char>, d: Seq<char>, a: Seq<char>, s: Seq<char>, is_period: bool) -> Option<ColMap> {
    match (position(header, p), position(header, d), position(header, a), position(header, s)) {
        (Some(ip), Some(id), Some(ia), Some(is)) => Some(
            ColMap {
                schema,
                idx_period_like: ip as usize,
                idx_dm: id as usize,
                idx_acc: ia as usize,
                idx_snr: is as usize,
                is_period,
            },
        ),
        _ => None,
    }
}

pub open spec fn fold_cols(header: Seq<String>) -> Option<ColMap> {
    schema_cols(header, Schema::FoldSearch, "p0_new"@, "dm_new"@, "acc_new"@, "S/N_new"@, true)
}

pub open spec fn pics_cols(header: Seq<String>) -> Option<ColMap> {
    schema_cols(header, Schema::Pics, "f0_opt"@, "dm_opt"@, "acc_opt"@, "sn_fold"@, false)
}

fn schema_lookup(header: &Vec<String>, schema: Schema, p: &str, d: &str, a: &str, s: &str, is_period: bool) -> (r: Option<ColMap>)
    ensures
        r == schema_cols(header@, schema, p@, d@, a@, s@, is_period),
{
    let ip = col_position(header, &p.to_owned());
    let id = col_position(header, &d.to_owned());
    let ia = col_position(header, &a.to_owned());
    let is = col_position(header, &s.to_owned());
    match (ip, id, ia, is) {
        (Some(ip), Some(id), Some(ia), Some(is)) => Some(
            ColMap { schema, idx_period_like: ip, idx_dm: id, idx_acc: ia, idx_snr: is, is_period },
        ),
        _ => None,
    }
}

/// Finds the column set of a table from its header (entries compared as
/// given; trim them first). The folding set is tried first, then the
/// classifier set, whose first column is a frequency.
pub fn detect_schema(header: &Vec<String>) -> (r: Result<ColMap, SchemaError>)
    ensures
        fold_cols(header@) is Some ==> r == Ok::<ColMap, SchemaError>(fold_cols(header@)->Some_0),
        fold_cols(header@) is None && pics_cols(header@) is Some ==> r == Ok::<ColMap, SchemaError>(
            pics_cols(header@)->Some_0,
        ),
        fold_cols(header@) is None && pics_cols(header@) is None ==> r == Err::<ColMap, SchemaError>(
            SchemaError::UnsupportedHeader,
        ),
{
    match schema_lookup(header, Schema::FoldSearch, "p0_new", "dm_new", "acc_new", "S/N_new", true) {
        Some(c) => Ok(c),
        None => match schema_lookup(header, Schema::Pics, "f0_opt", "dm_opt", "acc_opt", "sn_fold", false) {
            Some(c) => Ok(c),
            None => Err(SchemaError::UnsupportedHeader),
        },
    }
}

/// What `str::trim` returns: the text without leading and trailing white
/// space.
pub uninterp spec fn trimmed(s: Seq<char>) -> Seq<char>;

/// Relies on `str::trim`, whose result depends on the characters alone.
#[verifier::external_body]
fn trim_text(s: &str) -> (r: String)
    ensures
        r@ == trimmed(s@),
{
    s.trim().to_owned()
}

pub open spec fn without_hash(s: Seq<char>) -> Seq<char> {
    if s.len() > 0 && s[0] == '#' {
        s.drop_first()
    } else {
        s
    }
}

/// Relies on `str::strip_prefix`: with a leading `#` it returns the rest,
/// otherwise nothing.
#[verifier::external_body]
fn strip_hash(s: &str) -> (r: String)
    ensures
        r@ == without_hash(s@),
{
    match s.strip_prefix('#') {
        Some(t) => t.to_owned(),
        None => s.to_owned(),
    }
}

pub open spec fn lower_char(c: char) -> char {
    if 'A' <= c && c <= 'Z' {
        ((c as u32) + 32) as char
    } else {
        c
    }
}

pub open spec fn ascii_lower(s: Seq<char>) -> Seq<char> {
    s.map_values(|c: char| lower_char(c))
}

/// Relies on `str::to_ascii_lowercase`: `A` to `Z` become `a` to `z`, every
/// other character stays.
#[verifier::external_body]
fn lower_text(s: &str) -> (r: String)
    ensures
        r@ == ascii_lower(s@),
{
    s.to_ascii_lowercase()
}

/// A header name trimmed of white space.
pub fn trim_name(h: &String) -> (r: String)
    ensures
        r@ == trimmed(h@),
{
    trim_text(h.as_str())
}

/// A header name as the cross-source matcher compares it: trimmed, without
/// a leading `#`, in ASCII lower case.
pub fn normalize_name(h: &String) -> (r: String)
    ensures
        r@ == ascii_lower(without_hash(trimmed(h@))),
{
    let t = trim_text(h.as_str());
    let u = strip_hash(t.as_str());
    lower_text(u.as_str())
}

/// Every header name trimmed.
pub fn trim_names(header: &Vec<String>) -> (r: Vec<String>)
    ensures
        r@.len() == header@.len(),
        forall|i: int| 0 <= i < r@.len() ==> (#[trigger] r@[i])@ == trimmed(header@[i]@),
{
    let mut out: Vec<String> = Vec::new();
    let mut i: usize = 0;
    while i < header.len()
        invariant
            i <= header@.len(),
            out@.len() == i,
            forall|j: int| 0 <= j < i ==> (#[trigger] out@[j])@ == trimmed(header@[j]@),
        decreases header@.len() - i,
    {
        out.push(trim_name(&header[i]));
        i = i + 1;
    }
    out
}

/// Every header name normalized as by `normalize_name`.
pub fn normalize_names(header: &Vec<String>) -> (r: Vec<String>)
    ensures
        r@.len() == header@.len(),
        forall|i: int| 0 <= i < r@.len() ==> (#[trigger] r@[i])@ == ascii_lower(without_hash(trimmed(header@[i]@))),
{
    let mut out: Vec<String> = Vec::new();
    let mut i: usize = 0;
    while i < header.len()
        invariant
            i <= header@.len(),
            out@.len() == i,
            forall|j: int| 0 <= j < i ==> (#[trigger] out@[j])@ == ascii_lower(without_hash(trimmed(header@[j]@))),
        decreases header@.len() - i,
    {
        out.push(normalize_name(&header[i]));
        i = i + 1;
    }
    out
}

pub open spec fn period_name_list() -> Seq<Seq<char>> {
    seq!["p0_new"@, "period"@, "p0"@, "p"@, "p_sec"@, "per"@, "per_s"@]
}

pub open spec fn freq_name_list() -> Seq<Seq<char>> {
    seq!["f0_opt"@, "f0_new"@, "f0"@, "freq"@, "frequency_hz"@]
}

pub open spec fn dm_name_list() -> Seq<Seq<char>> {
    seq!["dm_new"@, "dm_opt"@, "dm"@, "refdm"@]
}

pub open spec fn acc_name_list() -> Seq<Seq<char>> {
    seq!["acc_new"@, "acc_opt"@, "acc"@, "acceleration"@]
}

fn names_of(list: &[&str]) -> (r: Vec<String>)
    ensures
        r@.len() == list@.len(),
        forall|i: int| 0 <= i < r@.len() ==> (#[trigger] r@[i])@ == list@[i]@,
{
    let mut out: Vec<String> = Vec::new();
    let mut i: usize = 0;
    while i < list.len()
        invariant
            i <= list@.len(),
            out@.len() == i,
            forall|j: int| 0 <= j < i ==> (#[trigger] out@[j])@ == list@[j]@,
        decreases list@.len() - i,
    {
        out.push(list[i].to_owned());
        i = i + 1;
    }
    out
}

/// Names of a period column, in order of preference.
pub fn period_names() -> (r: Vec<String>)
    ensures
        views(r@) == period_name_list(),
{
    let list: [&str; 7] = ["p0_new", "period", "p0", "p", "p_sec", "per", "per_s"];
    let r = names_of(&list);
    assert(views(r@) =~= period_name_list());
    r
}

/// Names of a frequency column, in order of preference.
pub fn freq_names() -> (r: Vec<String>)
    ensures
        views(r@) == freq_name_list(),
{
    let list: [&str; 5] = ["f0_opt", "f0_new", "f0", "freq", "frequency_hz"];
    let r = names_of(&list);
    assert(views(r@) =~= freq_name_list());
    r
}

/// Names of a DM column, in order of preference.
pub fn dm_names() -> (r: Vec<String>)
    ensures
        views(r@) == dm_name_list(),
{
    let list: [&str; 4] = ["dm_new", "dm_opt", "dm", "refdm"];
    let r = names_of(&list);
    assert(views(r@) =~= dm_name_list());
    r
}

/// Names of an acceleration column, in order of preference.
pub fn acc_names() -> (r: Vec<String>)
    ensures
        views(r@) == acc_name_list(),
{
    let list: [&str; 4] = ["acc_new", "acc_opt", "acc", "acceleration"];
    let r = names_of(&list);
    assert(views(r@) =~= acc_name_list());
    r
}

/// Where the cross-source matcher reads its values: a period column, else a
/// frequency column, and the DM and acceleration columns, each the first
/// known name that the (normalized) header has, at its last entry.
#[derive(Clone, Copy, Debug, PartialEq, Eq, Structural)]
pub struct MatcherColumns {
    pub period: Option<usize>,
    pub freq: Option<usize>,
    pub dm: Option<usize>,
    pub acc: Option<usize>,
}

pub open spec fn as_index(p: Option<int>) -> Option<usize> {
    match p {
        Some(i) => Some(i as usize),
        None => None,
    }
}

/// The columns of a normalized header.
pub fn matcher_columns(header: &Vec<String>) -> (r: MatcherColumns)
    ensures
        r.period == as_index(first_present(header@, period_name_list())),
        r.freq == as_index(first_present(header@, freq_name_list())),
        r.dm == as_index(first_present(header@, dm_name_list())),
        r.acc == as_index(first_present(header@, acc_name_list())),
{
    MatcherColumns {
        period: lookup_names(header, &period_names()),
        freq: lookup_names(header, &freq_names()),
        dm: lookup_names(header, &dm_names()),
        acc: lookup_names(header, &acc_names()),
    }
}

} // verus!
