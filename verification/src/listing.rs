//! Layout of the short directory listing: names in columns as wide as the
//! widest name plus a gap, as many columns as the terminal holds.

use vstd::prelude::*;
use vstd::utf8::encode_utf8;
use unicode_width::UnicodeWidthStr;

verus! {

/// The gap between two columns of the short listing.
pub const COLUMN_SPACING: usize = 2;

/// What `UnicodeWidthStr::width` makes of a text: the number of terminal
/// columns it takes.
pub uninterp spec fn spec_display_width(s: Seq<char>) -> nat;

/// Calls `UnicodeWidthStr::width` of the `unicode-width` crate. Its result
/// is named, not stated: it is the terminal width of the text, read from the
/// Unicode tables (with special cases for some character sequences), a
/// function of the text alone.
#[verifier::external_body]
fn display_width(s: &str) -> (width: usize)
    ensures
        width == spec_display_width(s@),
{
    s.width()
}

/// The terminal widths of the names, in order.
pub fn name_widths(names: &[String]) -> (widths: Vec<usize>)
    ensures
        widths@.len() == names@.len(),
        forall|i: int| 0 <= i < names@.len() ==> #[trigger] widths@[i] == spec_display_width(
            names@[i]@,
        ),
{
    let mut widths: Vec<usize> = Vec::new();
    let mut i: usize = 0;
    while i < names.len()
        invariant
            i <= names@.len(),
            widths@.len() == i,
            forall|k: int| 0 <= k < i ==> #[trigger] widths@[k] == spec_display_width(names@[k]@),
        decreases names@.len() - i,
    {
        let w: usize = display_width(names[i].as_str());
        widths.push(w);
        i = i + 1;
    }
    widths
}

/// The largest of the widths, 0 for none.
pub open spec fn max_width(widths: Seq<usize>) -> nat
    decreases widths.len(),
{
    if widths.len() == 0 {
        0
    } else {
        let rest = max_width(widths.drop_last());
        if widths.last() > rest {
            widths.last() as nat
        } else {
            rest
        }
    }
}

/// How the names are laid out: every column is `column_width` wide, a line
/// holds `columns` names, name `k` is followed by `padding[k]` spaces and
/// ends its line when `line_breaks[k]` holds; `final_break` ends an
/// incomplete last line.
pub struct ListingLayout {
    pub column_width: usize,
    pub columns: usize,
    pub padding: Vec<usize>,
    pub line_breaks: Vec<bool>,
    pub final_break: bool,
}

/// Lays out names of the given widths on a terminal `term_width` columns
/// wide.
pub fn layout_columns(widths: &[usize], term_width: usize) -> (layout: ListingLayout)
    requires
        forall|i: int| 0 <= i < widths@.len() ==> #[trigger] widths@[i] <= usize::MAX - COLUMN_SPACING,
    ensures
        layout.column_width == max_width(widths@) + COLUMN_SPACING,
        forall|k: int| 0 <= k < widths@.len() ==> #[trigger] widths@[k] + COLUMN_SPACING
            <= layout.column_width,
        widths@.len() > 0 ==> exists|k: int|
            0 <= k < widths@.len() && widths@[k] + COLUMN_SPACING == layout.column_width,
        widths@.len() == 0 ==> layout.column_width == COLUMN_SPACING,
        layout.columns == if term_width / layout.column_width >= 1 {
            term_width / layout.column_width
        } else {
            1
        },
        layout.padding@.len() == widths@.len(),
        layout.line_breaks@.len() == widths@.len(),
        forall|k: int|
            0 <= k < widths@.len() ==> #[trigger] layout.padding@[k] == layout.column_width
                - widths@[k],
        forall|k: int|
            0 <= k < widths@.len() ==> #[trigger] layout.line_breaks@[k] == ((k + 1)
                % (layout.columns as int) == 0),
        layout.final_break == ((widths@.len() as int) % (layout.columns as int) != 0),
{
    let mut widest: usize = 0;
    let mut i: usize = 0;
    while i < widths.len()
        invariant
            i <= widths@.len(),
            widest == max_width(widths@.take(i as int)),
            widest <= usize::MAX - COLUMN_SPACING,
            forall|j: int| 0 <= j < widths@.len() ==> #[trigger] widths@[j] <= usize::MAX - COLUMN_SPACING,
        decreases widths@.len() - i,
    {
        if widths[i] > widest {
            widest = widths[i];
        }
        i = i + 1;
        assert(widths@.take(i as int).drop_last() =~= widths@.take(i - 1));
    }
    assert(widths@.take(widths@.len() as int) =~= widths@);
    proof {
        lemma_max_width_bounds(widths@);
    }
    let column_width: usize = widest + COLUMN_SPACING;
    let fit: usize = term_width / column_width;
    let columns: usize = if fit >= 1 { fit } else { 1 };
    let mut padding: Vec<usize> = Vec::new();
    let mut line_breaks: Vec<bool> = Vec::new();
    let mut current_col: usize = 0;
    let mut k: usize = 0;
    while k < widths.len()
        invariant
            k <= widths@.len(),
            columns >= 1,
            column_width == max_width(widths@) + COLUMN_SPACING,
            forall|j: int| 0 <= j < widths@.len() ==> #[trigger] widths@[j] <= max_width(widths@),
            current_col as int == (k as int) % (columns as int),
            padding@.len() == k,
            line_breaks@.len() == k,
            forall|j: int| 0 <= j < k ==> #[trigger] padding@[j] == column_width - widths@[j],
            forall|j: int|
                0 <= j < k ==> #[trigger] line_breaks@[j] == ((j + 1) % (columns as int) == 0),
        decreases widths@.len() - k,
    {
        padding.push(column_width - widths[k]);
        proof {
            lemma_mod_step(k as int, columns as int);
        }
        current_col = current_col + 1;
        if current_col >= columns {
            line_breaks.push(true);
            current_col = 0;
        } else {
            line_breaks.push(false);
        }
        k = k + 1;
    }
    let final_break = current_col != 0;
    ListingLayout { column_width, columns, padding, line_breaks, final_break }
}

/// The widest width is the largest of the widths: no width exceeds it, and
/// some name has exactly that width (it is 0 when there are no names).
pub proof fn lemma_max_width_bounds(widths: Seq<usize>)
    ensures
        forall|j: int| 0 <= j < widths.len() ==> #[trigger] widths[j] <= max_width(widths),
        widths.len() > 0 ==> exists|i: int| 0 <= i < widths.len() && widths[i] == max_width(widths),
        widths.len() == 0 ==> max_width(widths) == 0,
    decreases widths.len(),
{
    if widths.len() > 0 {
        let prev = widths.drop_last();
        lemma_max_width_bounds(prev);
        assert forall|j: int| 0 <= j < widths.len() implies #[trigger] widths[j] <= max_width(widths) by {
            if j < prev.len() {
                assert(prev[j] == widths[j]);
            }
        }
        let n: int = widths.len() - 1;
        if widths[n] as nat == max_width(widths) {
        } else {
            let i: int = choose|i: int| 0 <= i < prev.len() && prev[i] == max_width(prev);
            assert(widths[i] == prev[i]);
        }
    }
}

proof fn lemma_mod_step(k: int, c: int)
    requires
        k >= 0,
        c >= 1,
    ensures
        k % c + 1 == c ==> (k + 1) % c == 0,
        k % c + 1 < c ==> (k + 1) % c == k % c + 1,
        k % c + 1 <= c,
{
    assert(k % c + 1 <= c) by (nonlinear_arith)
        requires
            c >= 1,
            k >= 0,
    ;
    assert(k % c + 1 == c ==> (k + 1) % c == 0) by (nonlinear_arith)
        requires
            c >= 1,
            k >= 0,
    ;
    assert(k % c + 1 < c ==> (k + 1) % c == k % c + 1) by (nonlinear_arith)
        requires
            c >= 1,
            k >= 0,
    ;
}

/// `a` and `b` agree on their first `k` bytes.
pub open spec fn agree_upto(a: Seq<u8>, b: Seq<u8>, k: int) -> bool {
    forall|j: int| 0 <= j < k ==> a[j] == b[j]
}

/// Byte-wise lexicographic order, the order of Rust strings: `a` comes no
/// later than `b` when, after their longest common prefix, `a` has ended or
/// has the smaller byte.
pub open spec fn lex_le(a: Seq<u8>, b: Seq<u8>) -> bool {
    exists|k: int|
        0 <= k <= a.len() && k <= b.len() && #[trigger] agree_upto(a, b, k) && (k == a.len() || (k
            < b.len() && a[k] < b[k]))
}

/// The bytes by which a name is ordered: its UTF-8 encoding.
pub open spec fn name_keys(names: Seq<String>) -> Seq<Seq<u8>> {
    names.map_values(|s: String| encode_utf8(s@))
}

/// `order` lists the positions of `keys` sorted by key, and positions of
/// equal keys in increasing order: the outcome of a stable sort.
pub open spec fn is_stable_order(keys: Seq<Seq<u8>>, order: Seq<usize>) -> bool {
    &&& order.len() == keys.len()
    &&& order.no_duplicates()
    &&& forall|p: int| 0 <= p < order.len() ==> #[trigger] order[p] < keys.len()
    &&& forall|p: int, q: int|
        0 <= p < q < order.len() ==> lex_le(keys[#[trigger] order[p] as int], keys[#[trigger] order[q] as int])
    &&& forall|p: int, q: int|
        0 <= p < q < order.len() && lex_le(keys[#[trigger] order[q] as int], keys[#[trigger] order[p] as int])
            ==> order[p] < order[q]
}

spec fn first_diff(a: Seq<u8>, b: Seq<u8>, i: int) -> int
    decreases a.len() - i,
{
    if i < 0 || i >= a.len() || i >= b.len() || a[i] != b[i] {
        i
    } else {
        first_diff(a, b, i + 1)
    }
}

proof fn lemma_first_diff(a: Seq<u8>, b: Seq<u8>, i: int)
    requires
        0 <= i <= a.len(),
        i <= b.len(),
        agree_upto(a, b, i),
    ensures
        i <= first_diff(a, b, i) <= a.len(),
        first_diff(a, b, i) <= b.len(),
        agree_upto(a, b, first_diff(a, b, i)),
        first_diff(a, b, i) == a.len() || first_diff(a, b, i) == b.len() || a[first_diff(a, b, i)]
            != b[first_diff(a, b, i)],
    decreases a.len() - i,
{
    if i < a.len() && i < b.len() && a[i] == b[i] {
        assert(agree_upto(a, b, i + 1));
        lemma_first_diff(a, b, i + 1);
    }
}

/// Any two byte strings are ordered one way or the other.
pub proof fn lemma_lex_total(a: Seq<u8>, b: Seq<u8>)
    ensures
        lex_le(a, b) || lex_le(b, a),
{
    assert(agree_upto(a, b, 0));
    lemma_first_diff(a, b, 0);
    let k: int = first_diff(a, b, 0);
    assert(agree_upto(b, a, k));
    if k == a.len() {
        assert(agree_upto(a, b, k));
    } else if k == b.len() {
        assert(agree_upto(b, a, k));
    } else if a[k] < b[k] {
        assert(agree_upto(a, b, k));
    } else {
        assert(agree_upto(b, a, k));
    }
}

/// The order is transitive.
pub proof fn lemma_lex_transitive(a: Seq<u8>, b: Seq<u8>, c: Seq<u8>)
    requires
        lex_le(a, b),
        lex_le(b, c),
    ensures
        lex_le(a, c),
{
    let k1: int = choose|k: int|
        0 <= k <= a.len() && k <= b.len() && #[trigger] agree_upto(a, b, k) && (k == a.len() || (k
            < b.len() && a[k] < b[k]));
    let k2: int = choose|k: int|
        0 <= k <= b.len() && k <= c.len() && #[trigger] agree_upto(b, c, k) && (k == b.len() || (k
            < c.len() && b[k] < c[k]));
    let k: int = if k1 <= k2 { k1 } else { k2 };
    assert(agree_upto(a, c, k));
}

/// Whether `a` comes no later than `b` in byte-wise lexicographic order.
fn bytes_le(a: &[u8], b: &[u8]) -> (le: bool)
    ensures
        le == lex_le(a@, b@),
{
    let mut i: usize = 0;
    while i < a.len() && i < b.len()
        invariant
            i <= a@.len(),
            i <= b@.len(),
            agree_upto(a@, b@, i as int),
        decreases a@.len() - i,
    {
        if a[i] < b[i] {
            return true;
        }
        if a[i] > b[i] {
            proof {
                assert forall|k: int|
                    0 <= k <= a@.len() && k <= b@.len() && #[trigger] agree_upto(a@, b@, k) implies !(k
                    == a@.len() || (k < b@.len() && a@[k] < b@[k])) by {
                    if k > i {
                        assert(a@[i as int] == b@[i as int]);
                    }
                }
            }
            return false;
        }
        i = i + 1;
    }
    if i == a.len() {
        true
    } else {
        proof {
            assert forall|k: int|
                0 <= k <= a@.len() && k <= b@.len() && #[trigger] agree_upto(a@, b@, k) implies !(k
                == a@.len() || (k < b@.len() && a@[k] < b@[k])) by {
            }
        }
        false
    }
}

proof fn lemma_insert_keeps_order(keys: Seq<Seq<u8>>, old: Seq<usize>, pos: int, i: int)
    requires
        0 <= i < keys.len(),
        i <= usize::MAX,
        old.len() == i,
        0 <= pos <= old.len(),
        old.no_duplicates(),
        forall|p: int| 0 <= p < old.len() ==> #[trigger] old[p] < i,
        forall|p: int, q: int|
            0 <= p < q < old.len() ==> lex_le(keys[#[trigger] old[p] as int], keys[#[trigger] old[q] as int]),
        forall|p: int, q: int|
            0 <= p < q < old.len() && lex_le(keys[#[trigger] old[q] as int], keys[#[trigger] old[p] as int])
                ==> old[p] < old[q],
        forall|p: int| pos <= p < old.len() ==> !lex_le(keys[#[trigger] old[p] as int], keys[i]),
        pos > 0 ==> lex_le(keys[old[pos - 1] as int], keys[i]),
    ensures
        ({
            let no = old.insert(pos, i as usize);
            &&& no.len() == i + 1
            &&& no.no_duplicates()
            &&& forall|p: int| 0 <= p < no.len() ==> #[trigger] no[p] < i + 1
            &&& forall|p: int, q: int|
                0 <= p < q < no.len() ==> lex_le(keys[#[trigger] no[p] as int], keys[#[trigger] no[q] as int])
            &&& forall|p: int, q: int|
                0 <= p < q < no.len() && lex_le(keys[#[trigger] no[q] as int], keys[#[trigger] no[p] as int])
                    ==> no[p] < no[q]
        }),
{
    let no = old.insert(pos, i as usize);
    let ki = keys[i];
    assert forall|p: int| 0 <= p < no.len() implies #[trigger] no[p] < i + 1 by {
        if p < pos {
            assert(no[p] == old[p]);
        } else if p > pos {
            assert(no[p] == old[p - 1]);
        }
    }
    assert forall|p: int, q: int| 0 <= p < q < no.len() implies no[p] != no[q] by {
        if p < pos && q < pos {
            assert(no[p] == old[p] && no[q] == old[q]);
        } else if p < pos && q == pos {
            assert(no[p] == old[p]);
        } else if p < pos && q > pos {
            assert(no[p] == old[p] && no[q] == old[q - 1]);
        } else if p == pos {
            assert(no[q] == old[q - 1]);
        } else {
            assert(no[p] == old[p - 1] && no[q] == old[q - 1]);
        }
    }
    assert forall|p: int, q: int| 0 <= p < q < no.len() implies lex_le(
        keys[#[trigger] no[p] as int],
        keys[#[trigger] no[q] as int],
    ) by {
        if q < pos {
            assert(no[p] == old[p] && no[q] == old[q]);
        } else if q == pos {
            assert(no[p] == old[p]);
            if p < pos - 1 {
                assert(lex_le(keys[old[p] as int], keys[old[pos - 1] as int]));
                lemma_lex_transitive(keys[old[p] as int], keys[old[pos - 1] as int], ki);
            }
        } else if p < pos {
            assert(no[p] == old[p] && no[q] == old[q - 1]);
        } else if p == pos {
            assert(no[q] == old[q - 1]);
            assert(!lex_le(keys[old[q - 1] as int], ki));
            lemma_lex_total(ki, keys[old[q - 1] as int]);
        } else {
            assert(no[p] == old[p - 1] && no[q] == old[q - 1]);
        }
    }
    assert forall|p: int, q: int|
        0 <= p < q < no.len() && lex_le(keys[#[trigger] no[q] as int], keys[#[trigger] no[p] as int])
            implies no[p] < no[q] by {
        if q < pos {
            assert(no[p] == old[p] && no[q] == old[q]);
        } else if q == pos {
            assert(no[p] == old[p]);
        } else if p < pos {
            assert(no[p] == old[p] && no[q] == old[q - 1]);
        } else if p == pos {
            assert(no[q] == old[q - 1]);
        } else {
            assert(no[p] == old[p - 1] && no[q] == old[q - 1]);
        }
    }
}

/// Sorts the positions of `names` by name, keeping names that are equal in
/// their given order, as a stable sort by the names' string order does.
pub fn name_order(names: &[String]) -> (order: Vec<usize>)
    ensures
        is_stable_order(name_keys(names@), order@),
{
    let ghost keys = name_keys(names@);
    let mut order: Vec<usize> = Vec::new();
    let mut i: usize = 0;
    while i < names.len()
        invariant
            keys == name_keys(names@),
            keys.len() == names@.len(),
            i <= names@.len(),
            order@.len() == i,
            order@.no_duplicates(),
            forall|p: int| 0 <= p < order@.len() ==> #[trigger] order@[p] < i,
            forall|p: int, q: int|
                0 <= p < q < order@.len() ==> lex_le(
                    keys[#[trigger] order@[p] as int],
                    keys[#[trigger] order@[q] as int],
                ),
            forall|p: int, q: int|
                0 <= p < q < order@.len() && lex_le(
                    keys[#[trigger] order@[q] as int],
                    keys[#[trigger] order@[p] as int],
                ) ==> order@[p] < order@[q],
        decreases names@.len() - i,
    {
        let key_i = names[i].as_str().as_bytes();
        proof {
            assert(key_i@ == keys[i as int]);
        }
        let mut pos: usize = order.len();
        while pos > 0
            invariant
                keys == name_keys(names@),
                keys.len() == names@.len(),
                i < names@.len(),
                key_i@ == keys[i as int],
                pos <= order@.len(),
                forall|p: int| 0 <= p < order@.len() ==> #[trigger] order@[p] < i,
                forall|p: int|
                    pos <= p < order@.len() ==> !lex_le(
                        keys[#[trigger] order@[p] as int],
                        keys[i as int],
                    ),
            ensures
                pos <= order@.len(),
                forall|p: int|
                    pos <= p < order@.len() ==> !lex_le(
                        keys[#[trigger] order@[p] as int],
                        keys[i as int],
                    ),
                pos > 0 ==> lex_le(keys[order@[pos - 1] as int], keys[i as int]),
            decreases pos,
        {
            let prev: usize = order[pos - 1];
            let key_prev = names[prev].as_str().as_bytes();
            proof {
                assert(key_prev@ == keys[prev as int]);
            }
            if bytes_le(key_prev, key_i) {
                break;
            }
            pos = pos - 1;
        }
        let ghost old_order = order@;
        order.insert(pos, i);
        proof {
            lemma_insert_keeps_order(keys, old_order, pos as int, i as int);
        }
        i = i + 1;
    }
    order
}

} // verus!
