use std::cmp::Ordering;
use vstd::arithmetic::power::pow;
use vstd::prelude::*;
use vstd::string::{StrSliceExecFns, StringExecFns};

use crate::sorting::{is_asymmetric, is_sorted_by, lemma_insert_at, lemma_sort_by, sort_by};

verus! {

/// The largest magnitude of a decimal's mantissa: 2^96 - 1.
pub const MAX_MANTISSA: i128 = 0xFFFF_FFFF_FFFF_FFFF_FFFF_FFFF;

/// The largest number of digits after a decimal's point.
pub const MAX_SCALE: u32 = 28;

/// A decimal number: `mantissa / 10^scale`, within the range of a 96-bit mantissa and
/// at most 28 digits after the point.
#[derive(Debug, Clone, Copy)]
pub struct Decimal {
    mantissa: i128,
    scale: u32,
}

impl Decimal {
    #[verifier::type_invariant]
    spec fn inv(&self) -> bool {
        &&& self.scale <= MAX_SCALE
        &&& -MAX_MANTISSA <= self.mantissa <= MAX_MANTISSA
    }

    pub closed spec fn spec_mantissa(&self) -> i128 {
        self.mantissa
    }

    pub closed spec fn spec_scale(&self) -> u32 {
        self.scale
    }

    /// The decimal `mantissa / 10^scale`, where both are in range.
    pub fn new(mantissa: i128, scale: u32) -> (r: Option<Self>)
        ensures
            r is Some <==> scale <= MAX_SCALE && -MAX_MANTISSA <= mantissa <= MAX_MANTISSA,
            r matches Some(d) ==> d.spec_mantissa() == mantissa && d.spec_scale() == scale,
    {
        if scale <= MAX_SCALE && -MAX_MANTISSA <= mantissa && mantissa <= MAX_MANTISSA {
            Some(Decimal { mantissa, scale })
        } else {
            None
        }
    }

    pub fn mantissa(&self) -> (r: i128)
        ensures
            r == self.spec_mantissa(),
    {
        self.mantissa
    }

    pub fn scale(&self) -> (r: u32)
        ensures
            r == self.spec_scale(),
    {
        self.scale
    }
}

/// The order of two integers.
pub open spec fn int_cmp(a: int, b: int) -> Ordering {
    if a < b {
        Ordering::Less
    } else if a > b {
        Ordering::Greater
    } else {
        Ordering::Equal
    }
}

/// The numeric order of two decimals.
pub open spec fn decimal_order(a: Decimal, b: Decimal) -> Ordering {
    int_cmp(
        a.spec_mantissa() * pow(10, b.spec_scale() as nat),
        b.spec_mantissa() * pow(10, a.spec_scale() as nat),
    )
}

/// Relies on rust_decimal's `Ord` for `Decimal`, which orders decimals by their value.
#[verifier::external_body]
fn decimal_cmp(a: &Decimal, b: &Decimal) -> (r: Ordering)
    requires
        a.spec_scale() <= MAX_SCALE,
        -MAX_MANTISSA <= a.spec_mantissa() <= MAX_MANTISSA,
        b.spec_scale() <= MAX_SCALE,
        -MAX_MANTISSA <= b.spec_mantissa() <= MAX_MANTISSA,
    ensures
        r == decimal_order(*a, *b),
{
    let x = rust_decimal::Decimal::from_i128_with_scale(a.mantissa, a.scale);
    let y = rust_decimal::Decimal::from_i128_with_scale(b.mantissa, b.scale);
    x.cmp(&y)
}

/// Compares two decimals by value.
pub fn compare_decimals(a: &Decimal, b: &Decimal) -> (r: Ordering)
    ensures
        r == decimal_order(*a, *b),
{
    proof {
        use_type_invariant(a);
        use_type_invariant(b);
    }
    decimal_cmp(a, b)
}

/// The lexicographic order of two character sequences, character by character.
pub open spec fn chars_cmp(a: Seq<char>, b: Seq<char>) -> Ordering
    decreases a.len(),
{
    if a.len() == 0 {
        if b.len() == 0 {
            Ordering::Equal
        } else {
            Ordering::Less
        }
    } else if b.len() == 0 {
        Ordering::Greater
    } else if (a[0] as u32) < (b[0] as u32) {
        Ordering::Less
    } else if (a[0] as u32) > (b[0] as u32) {
        Ordering::Greater
    } else {
        chars_cmp(a.drop_first(), b.drop_first())
    }
}

/// The characters of a string, one by one.
fn chars_of(s: &str) -> (r: Vec<char>)
    ensures
        r@ == s@,
{
    let n = s.unicode_len();
    let mut out: Vec<char> = Vec::new();
    let mut i: usize = 0;
    while i < n
        invariant
            n == s@.len(),
            i <= n,
            out@ == s@.take(i as int),
        decreases n - i,
    {
        out.push(s.get_char(i));
        i = i + 1;
        assert(out@ =~= s@.take(i as int));
    }
    assert(s@.take(n as int) =~= s@);
    out
}

/// Compares two strings in lexicographic order of their characters, which is the order
/// of their UTF-8 bytes.
pub fn compare_strings(a: &str, b: &str) -> (r: Ordering)
    ensures
        r == chars_cmp(a@, b@),
{
    let x = chars_of(a);
    let y = chars_of(b);
    let mut i: usize = 0;
    assert(a@.skip(0) =~= a@);
    assert(b@.skip(0) =~= b@);
    while i < x.len() && i < y.len()
        invariant
            x@ == a@,
            y@ == b@,
            i <= x@.len(),
            i <= y@.len(),
            chars_cmp(a@, b@) == chars_cmp(a@.skip(i as int), b@.skip(i as int)),
        decreases x@.len() - i,
    {
        let cx = x[i] as u32;
        let cy = y[i] as u32;
        if cx < cy {
            return Ordering::Less;
        }
        if cx > cy {
            return Ordering::Greater;
        }
        assert(a@.skip(i as int).drop_first() =~= a@.skip(i + 1));
        assert(b@.skip(i as int).drop_first() =~= b@.skip(i + 1));
        i = i + 1;
    }
    if x.len() == y.len() {
        assert(a@.skip(i as int).len() == 0 && b@.skip(i as int).len() == 0);
        Ordering::Equal
    } else if i == x.len() {
        Ordering::Less
    } else {
        Ordering::Greater
    }
}

/// Whether `prefix` starts `s`.
pub open spec fn is_prefix_of(prefix: Seq<char>, s: Seq<char>) -> bool {
    prefix.len() <= s.len() && s.take(prefix.len() as int) == prefix
}

/// Whether `part` stands somewhere in `s`.
pub open spec fn is_substring_of(part: Seq<char>, s: Seq<char>) -> bool {
    exists|i: int| 0 <= i <= s.len() - part.len() && #[trigger] s.subrange(i, i + part.len()) == part
}

/// Whether `part` stands in `s` at position `at`.
fn matches_at(s: &Vec<char>, part: &Vec<char>, at: usize) -> (r: bool)
    requires
        at + part@.len() <= s@.len(),
    ensures
        r == (s@.subrange(at as int, at + part@.len()) == part@),
{
    let n = s.len();
    let mut j: usize = 0;
    while j < part.len()
        invariant
            n == s@.len(),
            at + part@.len() <= s@.len(),
            j <= part@.len(),
            forall|k: int| 0 <= k < j ==> s@[at + k] == part@[k],
        decreases part@.len() - j,
    {
        if s[at + j] != part[j] {
            assert(s@.subrange(at as int, at + part@.len())[j as int] != part@[j as int]);
            return false;
        }
        j = j + 1;
    }
    assert(s@.subrange(at as int, at + part@.len()) =~= part@);
    true
}

/// Whether `s` starts with `prefix`.
pub fn starts_with(s: &str, prefix: &str) -> (r: bool)
    ensures
        r == is_prefix_of(prefix@, s@),
{
    let x = chars_of(s);
    let p = chars_of(prefix);
    if p.len() > x.len() {
        return false;
    }
    let r = matches_at(&x, &p, 0);
    assert(x@.subrange(0, p@.len() as int) =~= x@.take(p@.len() as int));
    r
}

/// Whether `part` stands somewhere in `s`.
pub fn contains(s: &str, part: &str) -> (r: bool)
    ensures
        r == is_substring_of(part@, s@),
{
    let x = chars_of(s);
    let p = chars_of(part);
    if p.len() > x.len() {
        return false;
    }
    let last = x.len() - p.len();
    let mut i: usize = 0;
    loop
        invariant
            x@ == s@,
            p@ == part@,
            last == x@.len() - p@.len(),
            i <= last,
            forall|k: int| 0 <= k < i ==> #[trigger] s@.subrange(k, k + part@.len()) != part@,
        decreases last - i,
    {
        if matches_at(&x, &p, i) {
            return true;
        }
        if i == last {
            return false;
        }
        i = i + 1;
    }
}

/// A value of a model's field that search can compare and sort on.
#[derive(Debug, Clone)]
pub enum SortValue {
    String(String),
    Decimal(Decimal),
    Int(i64),
}

/// The operators of a search condition.
#[derive(Debug, Clone, Copy, PartialEq, Eq, Structural)]
pub enum SearchOp {
    Eq,
    Gte,
    Lte,
    Gt,
    Lt,
    In,
    Contains,
    StartsWith,
}

/// The value that a search condition compares a field with.
#[derive(Debug, Clone)]
pub enum SearchValue {
    String(String),
    Decimal(Decimal),
    Int(i64),
    Bool(bool),
    Array(Vec<String>),
}

/// A condition on one field of a model.
#[derive(Debug, Clone)]
pub struct SearchCondition {
    pub field: String,
    pub operator: SearchOp,
    pub value: SearchValue,
}

/// A field to sort on, and in which direction.
#[derive(Debug, Clone)]
pub struct SortField {
    pub field: String,
    pub ascending: bool,
}

/// What a search asks for: conditions that all must hold, the fields to sort on (the first
/// decides, the next break ties), and the most results to return.
#[derive(Debug, Clone)]
pub struct SearchCriteria {
    pub conditions: Vec<SearchCondition>,
    pub sort_fields: Option<Vec<SortField>>,
    pub limit: Option<usize>,
}

impl SearchCriteria {
    /// Criteria with no condition, no sort and no limit.
    pub fn new() -> (r: SearchCriteria)
        ensures
            r.conditions@.len() == 0,
            r.sort_fields is None,
            r.limit is None,
    {
        SearchCriteria { conditions: Vec::new(), sort_fields: None, limit: None }
    }

    /// Adds the condition that `field` compares with `value` by `operator`.
    pub fn add_condition(&mut self, field: &str, operator: SearchOp, value: SearchValue)
        ensures
            final(self).conditions@.len() == old(self).conditions@.len() + 1,
            final(self).conditions@.drop_last() == old(self).conditions@,
            final(self).conditions@.last().field@ == field@,
            final(self).conditions@.last().operator == operator,
            final(self).conditions@.last().value == value,
            final(self).sort_fields == old(self).sort_fields,
            final(self).limit == old(self).limit,
    {
        self.conditions.push(SearchCondition { field: String::from_str(field), operator, value });
        assert(self.conditions@.drop_last() =~= old(self).conditions@);
    }

    /// Adds a field to sort on, after those added before.
    pub fn add_sort(&mut self, field: &str, ascending: bool)
        ensures
            final(self).sort_fields is Some,
            final(self).sort_fields->Some_0@.len() == (match old(self).sort_fields {
                Some(v) => v@.len(),
                None => 0,
            }) + 1,
            final(self).sort_fields->Some_0@.drop_last() == (match old(self).sort_fields {
                Some(v) => v@,
                None => Seq::<SortField>::empty(),
            }),
            final(self).sort_fields->Some_0@.last().field@ == field@,
            final(self).sort_fields->Some_0@.last().ascending == ascending,
            final(self).conditions == old(self).conditions,
            final(self).limit == old(self).limit,
    {
        let sort_field = SortField { field: String::from_str(field), ascending };
        let mut fields = match self.sort_fields.take() {
            Some(v) => v,
            None => Vec::new(),
        };
        let ghost before = fields@;
        fields.push(sort_field);
        assert(fields@.drop_last() =~= before);
        self.sort_fields = Some(fields);
    }

    /// Sets the limit, unless one is set already.
    pub fn add_limit(&mut self, limit: usize)
        ensures
            final(self).limit == (match old(self).limit {
                Some(l) => Some(l),
                None => Some(limit),
            }),
            final(self).conditions == old(self).conditions,
            final(self).sort_fields == old(self).sort_fields,
    {
        if self.limit.is_none() {
            self.limit = Some(limit);
        }
    }
}

/// The order of two field values: within a variant the value order (strings by their
/// characters, decimals by value); values of different variants are not ordered, and
/// count as equal.
pub open spec fn sort_value_order(a: SortValue, b: SortValue) -> Ordering {
    match (a, b) {
        (SortValue::String(x), SortValue::String(y)) => chars_cmp(x@, y@),
        (SortValue::Decimal(x), SortValue::Decimal(y)) => decimal_order(x, y),
        (SortValue::Int(x), SortValue::Int(y)) => int_cmp(x as int, y as int),
        _ => Ordering::Equal,
    }
}

/// Compares two field values; values of different variants compare as equal.
pub fn compare_sort_values(a: &SortValue, b: &SortValue) -> (r: Ordering)
    ensures
        r == sort_value_order(*a, *b),
{
    match (a, b) {
        (SortValue::String(x), SortValue::String(y)) => compare_strings(x.as_str(), y.as_str()),
        (SortValue::Decimal(x), SortValue::Decimal(y)) => compare_decimals(x, y),
        (SortValue::Int(x), SortValue::Int(y)) => if *x < *y {
            Ordering::Less
        } else if *x > *y {
            Ordering::Greater
        } else {
            Ordering::Equal
        },
        _ => Ordering::Equal,
    }
}

/// The order of a field value and a condition's value, where both have the same type.
pub open spec fn value_order(f: SortValue, v: SearchValue) -> Option<Ordering> {
    match (f, v) {
        (SortValue::String(x), SearchValue::String(y)) => Some(chars_cmp(x@, y@)),
        (SortValue::Decimal(x), SearchValue::Decimal(y)) => Some(decimal_order(x, y)),
        (SortValue::Int(x), SearchValue::Int(y)) => Some(int_cmp(x as int, y as int)),
        _ => None,
    }
}

/// Whether a condition holds of a field's value. A missing value, or one whose type does
/// not fit the operator and the condition's value, fails the condition.
pub open spec fn condition_holds(field: Option<SortValue>, op: SearchOp, value: SearchValue) -> bool {
    match field {
        None => false,
        Some(f) => match op {
            SearchOp::Eq => value_order(f, value) == Some(Ordering::Equal),
            SearchOp::Gte => value_order(f, value) == Some(Ordering::Greater) || value_order(
                f,
                value,
            ) == Some(Ordering::Equal),
            SearchOp::Lte => value_order(f, value) == Some(Ordering::Less) || value_order(f, value)
                == Some(Ordering::Equal),
            SearchOp::Gt => value_order(f, value) == Some(Ordering::Greater),
            SearchOp::Lt => value_order(f, value) == Some(Ordering::Less),
            SearchOp::In => match (f, value) {
                (SortValue::String(x), SearchValue::Array(items)) => exists|i: int|
                    0 <= i < items@.len() && (#[trigger] items@[i])@ == x@,
                _ => false,
            },
            SearchOp::Contains => match (f, value) {
                (SortValue::String(x), SearchValue::String(y)) => is_substring_of(y@, x@),
                _ => false,
            },
            SearchOp::StartsWith => match (f, value) {
                (SortValue::String(x), SearchValue::String(y)) => is_prefix_of(y@, x@),
                _ => false,
            },
        },
    }
}

fn compare_value(f: &SortValue, v: &SearchValue) -> (r: Option<Ordering>)
    ensures
        r == value_order(*f, *v),
{
    match (f, v) {
        (SortValue::String(x), SearchValue::String(y)) => Some(
            compare_strings(x.as_str(), y.as_str()),
        ),
        (SortValue::Decimal(x), SearchValue::Decimal(y)) => Some(compare_decimals(x, y)),
        (SortValue::Int(x), SearchValue::Int(y)) => Some(
            if *x < *y {
                Ordering::Less
            } else if *x > *y {
                Ordering::Greater
            } else {
                Ordering::Equal
            },
        ),
        _ => None,
    }
}

fn string_in(x: &String, items: &Vec<String>) -> (r: bool)
    ensures
        r == exists|i: int| 0 <= i < items@.len() && (#[trigger] items@[i])@ == x@,
{
    let mut i: usize = 0;
    while i < items.len()
        invariant
            i <= items@.len(),
            forall|j: int| 0 <= j < i ==> (#[trigger] items@[j])@ != x@,
        decreases items@.len() - i,
    {
        if items[i] == *x {
            return true;
        }
        i = i + 1;
    }
    false
}

/// Whether `condition` holds of the field value `field`.
pub fn evaluate_condition(field: &Option<SortValue>, condition: &SearchCondition) -> (r: bool)
    ensures
        r == condition_holds(*field, condition.operator, condition.value),
{
    let f = match field {
        None => {
            return false;
        },
        Some(f) => f,
    };
    match condition.operator {
        SearchOp::Eq => matches!(compare_value(f, &condition.value), Some(Ordering::Equal)),
        SearchOp::Gte => matches!(
            compare_value(f, &condition.value),
            Some(Ordering::Greater) | Some(Ordering::Equal)
        ),
        SearchOp::Lte => matches!(
            compare_value(f, &condition.value),
            Some(Ordering::Less) | Some(Ordering::Equal)
        ),
        SearchOp::Gt => matches!(compare_value(f, &condition.value), Some(Ordering::Greater)),
        SearchOp::Lt => matches!(compare_value(f, &condition.value), Some(Ordering::Less)),
        SearchOp::In => match (f, &condition.value) {
            (SortValue::String(x), SearchValue::Array(items)) => string_in(x, items),
            _ => false,
        },
        SearchOp::Contains => match (f, &condition.value) {
            (SortValue::String(x), SearchValue::String(y)) => contains(x.as_str(), y.as_str()),
            _ => false,
        },
        SearchOp::StartsWith => match (f, &condition.value) {
            (SortValue::String(x), SearchValue::String(y)) => starts_with(x.as_str(), y.as_str()),
            _ => false,
        },
    }
}

/// The values that a search reads from one model: the value of each condition's field, in
/// the order of the conditions, and the value of each sort field, in the order of the sort
/// fields. A value the model does not have is `None`.
#[derive(Debug, Clone)]
pub struct SearchRow {
    pub conditions: Vec<Option<SortValue>>,
    pub sort_keys: Vec<Option<SortValue>>,
}

/// The `i`-th of `values`, or `None` past their end.
pub open spec fn value_at(values: Seq<Option<SortValue>>, i: int) -> Option<SortValue> {
    if 0 <= i < values.len() {
        values[i]
    } else {
        None
    }
}

/// Whether every condition holds of the row.
pub open spec fn row_matches(row: SearchRow, conditions: Seq<SearchCondition>) -> bool {
    forall|i: int|
        0 <= i < conditions.len() ==> condition_holds(
            #[trigger] value_at(row.conditions@, i),
            conditions[i].operator,
            conditions[i].value,
        )
}

/// The order of two rows' sort keys from the `i`-th sort field on: the first field on
/// which both have a value and the values differ decides, in that field's direction.
pub open spec fn keys_order_from(
    a: Seq<Option<SortValue>>,
    b: Seq<Option<SortValue>>,
    fields: Seq<SortField>,
    i: int,
) -> Ordering
    decreases fields.len() - i,
{
    if i < 0 || i >= fields.len() {
        Ordering::Equal
    } else {
        let o = match (value_at(a, i), value_at(b, i)) {
            (Some(x), Some(y)) => if fields[i].ascending {
                sort_value_order(x, y)
            } else {
                sort_value_order(y, x)
            },
            _ => Ordering::Equal,
        };
        if o != Ordering::Equal {
            o
        } else {
            keys_order_from(a, b, fields, i + 1)
        }
    }
}

/// The sort keys of row `x`, none where there is no such row.
pub open spec fn row_keys(rows: Seq<SearchRow>, x: usize) -> Seq<Option<SortValue>> {
    if x < rows.len() {
        rows[x as int].sort_keys@
    } else {
        Seq::empty()
    }
}

/// Row `x` must come after row `y` when its sort keys order after `y`'s.
pub open spec fn row_after(rows: Seq<SearchRow>, fields: Seq<SortField>) -> spec_fn(usize, usize) -> bool {
    |x: usize, y: usize|
        keys_order_from(row_keys(rows, x), row_keys(rows, y), fields, 0) == Ordering::Greater
}

proof fn lemma_chars_cmp_swap(a: Seq<char>, b: Seq<char>)
    ensures
        chars_cmp(a, b) == Ordering::Greater <==> chars_cmp(b, a) == Ordering::Less,
        chars_cmp(a, b) == Ordering::Equal <==> chars_cmp(b, a) == Ordering::Equal,
    decreases a.len(),
{
    if a.len() > 0 && b.len() > 0 {
        lemma_chars_cmp_swap(a.drop_first(), b.drop_first());
    }
}

proof fn lemma_sort_value_order_swap(x: SortValue, y: SortValue)
    ensures
        sort_value_order(x, y) == Ordering::Greater <==> sort_value_order(y, x) == Ordering::Less,
        sort_value_order(x, y) == Ordering::Equal <==> sort_value_order(y, x) == Ordering::Equal,
{
    match (x, y) {
        (SortValue::String(a), SortValue::String(b)) => lemma_chars_cmp_swap(a@, b@),
        _ => {},
    }
}

proof fn lemma_keys_order_swap(
    a: Seq<Option<SortValue>>,
    b: Seq<Option<SortValue>>,
    fields: Seq<SortField>,
    i: int,
)
    ensures
        keys_order_from(a, b, fields, i) == Ordering::Greater ==> keys_order_from(b, a, fields, i)
            == Ordering::Less,
        keys_order_from(a, b, fields, i) == Ordering::Less ==> keys_order_from(b, a, fields, i)
            == Ordering::Greater,
    decreases fields.len() - i,
{
    if 0 <= i < fields.len() {
        if let (Some(x), Some(y)) = (value_at(a, i), value_at(b, i)) {
            lemma_sort_value_order_swap(x, y);
            lemma_sort_value_order_swap(y, x);
        }
        lemma_keys_order_swap(a, b, fields, i + 1);
    }
}

/// Sorting rows never asks for two rows to come each after the other.
pub proof fn lemma_row_after_asymmetric(rows: Seq<SearchRow>, fields: Seq<SortField>)
    ensures
        is_asymmetric(row_after(rows, fields)),
{
    assert forall|x: usize, y: usize| #[trigger] row_after(rows, fields)(x, y) implies !row_after(
        rows,
        fields,
    )(y, x) by {
        lemma_keys_order_swap(row_keys(rows, x), row_keys(rows, y), fields, 0);
    }
}

/// Compares the sort keys of two rows by the sort fields.
pub fn compare_keys(
    a: &Vec<Option<SortValue>>,
    b: &Vec<Option<SortValue>>,
    fields: &Vec<SortField>,
) -> (r: Ordering)
    ensures
        r == keys_order_from(a@, b@, fields@, 0),
{
    let mut i: usize = 0;
    while i < fields.len()
        invariant
            i <= fields@.len(),
            keys_order_from(a@, b@, fields@, 0) == keys_order_from(a@, b@, fields@, i as int),
        decreases fields@.len() - i,
    {
        if i < a.len() && i < b.len() {
            match (&a[i], &b[i]) {
                (Some(x), Some(y)) => {
                    let o = if fields[i].ascending {
                        compare_sort_values(x, y)
                    } else {
                        compare_sort_values(y, x)
                    };
                    match o {
                        Ordering::Equal => {},
                        _ => {
                            return o;
                        },
                    }
                },
                _ => {},
            }
        }
        i = i + 1;
    }
    Ordering::Equal
}

/// Sorts the rows `items` by the sort fields, stably: rows whose keys order the same keep
/// their order. The first field decides; the next ones break ties.
pub fn apply_sort(items: Vec<usize>, rows: &Vec<SearchRow>, sort_fields: &Vec<SortField>) -> (r: Vec<
    usize,
>)
    requires
        forall|i: int| 0 <= i < items@.len() ==> #[trigger] items@[i] < rows@.len(),
    ensures
        r@ == sort_by(items@, row_after(rows@, sort_fields@)),
{
    let ghost after = row_after(rows@, sort_fields@);
    let mut out: Vec<usize> = Vec::new();
    let mut i: usize = 0;
    while i < items.len()
        invariant
            i <= items@.len(),
            forall|k: int| 0 <= k < items@.len() ==> #[trigger] items@[k] < rows@.len(),
            after == row_after(rows@, sort_fields@),
            out@ == sort_by(items@.take(i as int), after),
            forall|k: int| 0 <= k < out@.len() ==> #[trigger] out@[k] < rows@.len(),
        decreases items@.len() - i,
    {
        let x = items[i];
        let mut j: usize = out.len();
        loop
            invariant
                j <= out@.len(),
                x < rows@.len(),
                after == row_after(rows@, sort_fields@),
                forall|k: int| 0 <= k < out@.len() ==> #[trigger] out@[k] < rows@.len(),
                forall|k: int| j <= k < out@.len() ==> after(#[trigger] out@[k], x),
            ensures
                j <= out@.len(),
                forall|k: int| j <= k < out@.len() ==> after(#[trigger] out@[k], x),
                j > 0 ==> !after(out@[j - 1], x),
            decreases j,
        {
            if j == 0 {
                break ;
            }
            match compare_keys(&rows[out[j - 1]].sort_keys, &rows[x].sort_keys, sort_fields) {
                Ordering::Greater => {
                    j = j - 1;
                },
                _ => {
                    break ;
                },
            }
        }
        proof {
            lemma_insert_at(out@, x, after, j as int);
            assert(items@.take(i + 1).drop_last() =~= items@.take(i as int));
            assert(items@.take(i + 1).last() == x);
        }
        out.insert(j, x);
        i = i + 1;
    }
    assert(items@.take(items@.len() as int) =~= items@);
    out
}

/// The rows, among the first `n`, of which every condition holds, in row order.
pub open spec fn filter_rows(rows: Seq<SearchRow>, conditions: Seq<SearchCondition>, n: int) -> Seq<
    usize,
>
    decreases n,
{
    if n <= 0 {
        Seq::empty()
    } else {
        let s = filter_rows(rows, conditions, n - 1);
        if row_matches(rows[n - 1], conditions) {
            s.push((n - 1) as usize)
        } else {
            s
        }
    }
}

/// What a search returns: the rows that meet every condition, sorted by the sort fields
/// if there are any, and cut to the limit if there is one.
pub open spec fn search_result(rows: Seq<SearchRow>, criteria: SearchCriteria) -> Seq<usize> {
    let matched = filter_rows(rows, criteria.conditions@, rows.len() as int);
    let sorted = match criteria.sort_fields {
        Some(fields) => sort_by(matched, row_after(rows, fields@)),
        None => matched,
    };
    match criteria.limit {
        Some(limit) => if limit < sorted.len() {
            sorted.take(limit as int)
        } else {
            sorted
        },
        None => sorted,
    }
}

/// Whether every condition holds of the row.
pub fn matches_row(row: &SearchRow, conditions: &Vec<SearchCondition>) -> (r: bool)
    ensures
        r == row_matches(*row, conditions@),
{
    let mut i: usize = 0;
    while i < conditions.len()
        invariant
            i <= conditions@.len(),
            forall|k: int|
                0 <= k < i ==> condition_holds(
                    #[trigger] value_at(row.conditions@, k),
                    conditions@[k].operator,
                    conditions@[k].value,
                ),
        decreases conditions@.len() - i,
    {
        let holds = if i < row.conditions.len() {
            evaluate_condition(&row.conditions[i], &conditions[i])
        } else {
            false
        };
        if !holds {
            assert(!condition_holds(
                value_at(row.conditions@, i as int),
                conditions@[i as int].operator,
                conditions@[i as int].value,
            ));
            return false;
        }
        i = i + 1;
    }
    true
}

/// Runs a search over the values read from the candidate models, one row per model, and
/// returns the positions of the rows found: those that meet every condition, sorted by
/// the sort fields, at most `limit` of them.
pub fn find(criteria: &SearchCriteria, rows: &Vec<SearchRow>) -> (r: Vec<usize>)
    ensures
        r@ == search_result(rows@, *criteria),
{
    let mut matched: Vec<usize> = Vec::new();
    let mut i: usize = 0;
    while i < rows.len()
        invariant
            i <= rows@.len(),
            matched@ == filter_rows(rows@, criteria.conditions@, i as int),
            forall|k: int| 0 <= k < matched@.len() ==> #[trigger] matched@[k] < i,
        decreases rows@.len() - i,
    {
        if matches_row(&rows[i], &criteria.conditions) {
            matched.push(i);
        }
        i = i + 1;
    }
    let mut sorted = match &criteria.sort_fields {
        Some(fields) => apply_sort(matched, rows, fields),
        None => matched,
    };
    match criteria.limit {
        Some(limit) => {
            if limit < sorted.len() {
                sorted.truncate(limit);
            }
        },
        None => {},
    }
    sorted
}

proof fn lemma_filter_rows(rows: Seq<SearchRow>, conditions: Seq<SearchCondition>, n: int)
    requires
        0 <= n <= rows.len(),
        rows.len() <= usize::MAX,
    ensures
        forall|i: int|
            0 <= i < filter_rows(rows, conditions, n).len() ==> #[trigger] filter_rows(
                rows,
                conditions,
                n,
            )[i] < n && row_matches(rows[filter_rows(rows, conditions, n)[i] as int], conditions),
        forall|i: int, j: int|
            0 <= i < j < filter_rows(rows, conditions, n).len() ==> #[trigger] filter_rows(
                rows,
                conditions,
                n,
            )[i] < #[trigger] filter_rows(rows, conditions, n)[j],
        forall|k: int|
            0 <= k < n && row_matches(rows[k], conditions) ==> filter_rows(
                rows,
                conditions,
                n,
            ).contains(k as usize),
    decreases n,
{
    if n > 0 {
        lemma_filter_rows(rows, conditions, n - 1);
        let s = filter_rows(rows, conditions, n - 1);
        let t = filter_rows(rows, conditions, n);
        assert forall|i: int| 0 <= i < t.len() implies #[trigger] t[i] < n && row_matches(
            rows[t[i] as int],
            conditions,
        ) by {
            if i < s.len() {
                assert(t[i] == s[i]);
            }
        }
        assert forall|i: int, j: int| 0 <= i < j < t.len() implies #[trigger] t[i] < #[trigger] t[j] by {
            assert(t[i] == s[i]);
            if j < s.len() {
                assert(t[j] == s[j]);
            }
        }
        assert forall|k: int| 0 <= k < n && row_matches(rows[k], conditions) implies t.contains(
            k as usize,
        ) by {
            if k < n - 1 {
                let j = choose|j: int| 0 <= j < s.len() && s[j] == k as usize;
                assert(t[j] == k as usize);
            } else {
                assert(t[t.len() - 1] == k as usize);
            }
        }
    }
}

/// A search returns only rows that meet every condition, each at most once: a part of
/// all the candidates. It returns all of them up to the limit, no more than the limit,
/// and in order of the sort fields when there are any.
pub proof fn lemma_search_criteria(rows: Seq<SearchRow>, criteria: SearchCriteria)
    requires
        rows.len() <= usize::MAX,
    ensures
        ({
            let r = search_result(rows, criteria);
            let matched = filter_rows(rows, criteria.conditions@, rows.len() as int);
            &&& forall|i: int|
                0 <= i < r.len() ==> #[trigger] r[i] < rows.len() && row_matches(
                    rows[r[i] as int],
                    criteria.conditions@,
                )
            &&& r.no_duplicates()
            &&& r.len() == (match criteria.limit {
                Some(limit) => if limit < matched.len() {
                    limit as int
                } else {
                    matched.len() as int
                },
                None => matched.len() as int,
            })
            &&& forall|k: int|
                0 <= k < rows.len() && row_matches(rows[k], criteria.conditions@) ==> matched.contains(
                    k as usize,
                )
            &&& (criteria.sort_fields matches Some(fields) ==> is_sorted_by(
                r,
                row_after(rows, fields@),
            ))
        }),
{
    broadcast use vstd::seq_lib::group_seq_properties;
    broadcast use vstd::multiset::group_multiset_axioms;

    let n = rows.len() as int;
    let matched = filter_rows(rows, criteria.conditions@, n);
    lemma_filter_rows(rows, criteria.conditions@, n);
    assert(matched.no_duplicates()) by {
        assert forall|i: int, j: int|
            0 <= i < matched.len() && 0 <= j < matched.len() && i != j implies matched[i]
            != matched[j] by {
            if i < j {
                assert(matched[i] < matched[j]);
            } else {
                assert(matched[j] < matched[i]);
            }
        }
    }
    let sorted = match criteria.sort_fields {
        Some(fields) => sort_by(matched, row_after(rows, fields@)),
        None => matched,
    };
    if let Some(fields) = criteria.sort_fields {
        lemma_row_after_asymmetric(rows, fields@);
        lemma_sort_by(matched, row_after(rows, fields@));
        matched.lemma_multiset_has_no_duplicates();
        sorted.lemma_multiset_has_no_duplicates_conv();
        assert forall|i: int| 0 <= i < sorted.len() implies matched.contains(#[trigger] sorted[i]) by {
            assert(sorted.to_multiset().count(sorted[i]) > 0);
        }
    }
    assert forall|i: int| 0 <= i < sorted.len() implies #[trigger] sorted[i] < rows.len()
        && row_matches(rows[sorted[i] as int], criteria.conditions@) by {
        assert(matched.contains(sorted[i]));
    }
    let r = search_result(rows, criteria);
    assert forall|i: int| 0 <= i < r.len() implies #[trigger] r[i] < rows.len() && row_matches(
        rows[r[i] as int],
        criteria.conditions@,
    ) by {
        assert(r[i] == sorted[i]);
    }
    if let Some(fields) = criteria.sort_fields {
        assert forall|i: int| 0 <= i < r.len() - 1 implies !row_after(rows, fields@)(
            #[trigger] r[i],
            r[i + 1],
        ) by {
            assert(r[i] == sorted[i] && r[i + 1] == sorted[i + 1]);
        }
    }
}

} // verus!
