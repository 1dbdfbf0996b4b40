//! Small text utilities: vector ids, whitespace normalization, truncation
//! and byte-count formatting.

use vstd::prelude::*;

verus! {

/// The decimal digit character for `d` in `0..10`.
pub open spec fn spec_digit(d: int) -> char {
    if d == 0 {
        '0'
    } else if d == 1 {
        '1'
    } else if d == 2 {
        '2'
    } else if d == 3 {
        '3'
    } else if d == 4 {
        '4'
    } else if d == 5 {
        '5'
    } else if d == 6 {
        '6'
    } else if d == 7 {
        '7'
    } else if d == 8 {
        '8'
    } else {
        '9'
    }
}

/// The decimal rendering of a non-negative integer, without leading zeros.
pub open spec fn dec_str(n: int) -> Seq<char>
    decreases n,
{
    if n < 10 {
        seq![spec_digit(n)]
    } else {
        dec_str(n / 10).push(spec_digit(n % 10))
    }
}

/// The decimal digit for `d`, as a string slice.
fn digit_str(d: u64) -> (r: &'static str)
    requires
        d < 10,
    ensures
        r@ == seq![spec_digit(d as int)],
{
    proof {
        reveal_strlit("0");
        reveal_strlit("1");
        reveal_strlit("2");
        reveal_strlit("3");
        reveal_strlit("4");
        reveal_strlit("5");
        reveal_strlit("6");
        reveal_strlit("7");
        reveal_strlit("8");
        reveal_strlit("9");
    }
    if d == 0 {
        "0"
    } else if d == 1 {
        "1"
    } else if d == 2 {
        "2"
    } else if d == 3 {
        "3"
    } else if d == 4 {
        "4"
    } else if d == 5 {
        "5"
    } else if d == 6 {
        "6"
    } else if d == 7 {
        "7"
    } else if d == 8 {
        "8"
    } else {
        "9"
    }
}

/// Renders `n` in decimal.
pub fn u64_to_dec(n: u64) -> (r: String)
    ensures
        r@ == dec_str(n as int),
    decreases n,
{
    if n < 10 {
        digit_str(n).to_owned()
    } else {
        let mut s = u64_to_dec(n / 10);
        s.append(digit_str(n % 10));
        s
    }
}

/// The id of a chunk's vector: `{entity_type}::{entity_id}::chunk_{index}`.
pub open spec fn spec_vector_id(etype: Seq<char>, eid: Seq<char>, idx: int) -> Seq<char> {
    etype + "::"@ + eid + "::chunk_"@ + dec_str(idx)
}

/// Derives the deterministic vector id of a chunk, so re-embedding the same
/// logical chunk always lands on the same id.
pub fn generate_vector_id(entity_type: &str, entity_id: &str, chunk_index: usize) -> (r: String)
    ensures
        r@ == spec_vector_id(entity_type@, entity_id@, chunk_index as int),
{
    let mut s: String = entity_type.to_owned();
    s.append("::");
    s.append(entity_id);
    s.append("::chunk_");
    let idx = u64_to_dec(chunk_index as u64);
    s.append(idx.as_str());
    s
}

/// ASCII whitespace, as `sanitize_text` sees it.
pub open spec fn is_space(c: char) -> bool {
    c == ' ' || c == '\t' || c == '\n' || c == '\r'
}

/// Index of the first whitespace character of `s` at or after `i`, or the
/// length of `s` when there is none.
pub open spec fn next_space(s: Seq<char>, i: int) -> int
    decreases s.len() - i,
{
    if i < 0 || i >= s.len() {
        s.len() as int
    } else if is_space(s[i]) {
        i
    } else {
        next_space(s, i + 1)
    }
}

proof fn lemma_next_space(s: Seq<char>, i: int)
    requires
        0 <= i <= s.len(),
    ensures
        i <= next_space(s, i) <= s.len(),
        next_space(s, i) < s.len() ==> is_space(s[next_space(s, i)]),
        forall|j: int| i <= j < next_space(s, i) ==> !is_space(#[trigger] s[j]),
    decreases s.len() - i,
{
    if i < s.len() && !is_space(s[i]) {
        lemma_next_space(s, i + 1);
    }
}

/// The whitespace-separated words of `s`, in order.
pub open spec fn spec_words(s: Seq<char>, i: int) -> Seq<Seq<char>>
    decreases s.len() - i, 1int,
    when 0 <= i <= s.len()
{
    if i >= s.len() {
        Seq::empty()
    } else if is_space(s[i]) {
        spec_words(s, i + 1)
    } else {
        spec_words_word(s, i)
    }
}

/// The words of `s` from `i`, where `s[i]` starts a word.
pub open spec fn spec_words_word(s: Seq<char>, i: int) -> Seq<Seq<char>>
    decreases s.len() - i, 0int,
    when 0 <= i < s.len() && !is_space(s[i])
    via spec_words_word_decreases
{
    let j = next_space(s, i);
    seq![s.subrange(i, j)] + spec_words(s, j)
}

#[via_fn]
proof fn spec_words_word_decreases(s: Seq<char>, i: int) {
    lemma_next_space(s, i);
}

/// Words joined by single spaces.
pub open spec fn spec_join_words(ws: Seq<Seq<char>>) -> Seq<char>
    decreases ws.len(),
{
    if ws.len() == 0 {
        Seq::empty()
    } else if ws.len() == 1 {
        ws[0]
    } else {
        ws[0] + seq![' '] + spec_join_words(ws.drop_first())
    }
}

/// What `sanitize_text` returns: the words of the text joined by single
/// spaces, with leading and trailing whitespace gone.
pub open spec fn spec_sanitize(s: Seq<char>) -> Seq<char> {
    spec_join_words(spec_words(s, 0))
}

proof fn lemma_join_snoc(ws: Seq<Seq<char>>, w: Seq<char>)
    ensures
        ws.len() > 0 ==> spec_join_words(ws.push(w)) == spec_join_words(ws) + seq![' '] + w,
        ws.len() == 0 ==> spec_join_words(ws.push(w)) == w,
    decreases ws.len(),
{
    if ws.len() == 0 {
        assert(ws.push(w)[0] == w);
    } else if ws.len() == 1 {
        assert(ws.push(w)[0] == ws[0]);
        assert(ws.push(w).drop_first() =~= seq![w]);
        assert(spec_join_words(seq![w]) == w);
        assert(spec_join_words(ws) == ws[0]);
    } else {
        assert(ws.push(w)[0] == ws[0]);
        assert(ws.push(w).drop_first() =~= ws.drop_first().push(w));
        lemma_join_snoc(ws.drop_first(), w);
        assert(spec_join_words(ws) == ws[0] + seq![' '] + spec_join_words(ws.drop_first()));
        assert((ws[0] + seq![' '] + spec_join_words(ws.drop_first())) + seq![' '] + w
            =~= ws[0] + seq![' '] + (spec_join_words(ws.drop_first()) + seq![' '] + w));
    }
}

/// Collapses every whitespace run to a single space and trims the ends.
pub fn sanitize_text(text: &str) -> (r: String)
    ensures
        r@ == spec_sanitize(text@),
{
    let ghost t = text@;
    let n = text.unicode_len();
    let mut out = String::new();
    let mut words: usize = 0;
    let ghost mut ws: Seq<Seq<char>> = Seq::empty();
    let mut i: usize = 0;
    proof {
        assert(spec_join_words(Seq::empty()) =~= Seq::<char>::empty());
    }
    while i < n
        invariant
            0 <= i <= n,
            n == t.len(),
            text@ == t,
            out@ == spec_join_words(ws),
            words == ws.len(),
            words <= i,
            spec_words(t, 0) == ws + spec_words(t, i as int),
        decreases n - i,
    {
        if is_space_exec(text.get_char(i)) {
            i = i + 1;
        } else {
            proof {
                lemma_next_space(t, i as int);
            }
            let mut j: usize = i + 1;
            while j < n
                invariant_except_break
                    i < j <= n,
                    n == t.len(),
                    text@ == t,
                    !is_space(t[i as int]),
                    forall|u: int| i <= u < j ==> !is_space(#[trigger] t[u]),
                ensures
                    i < j <= n,
                    n == t.len(),
                    text@ == t,
                    forall|u: int| i <= u < j ==> !is_space(#[trigger] t[u]),
                    j == n || is_space(t[j as int]),
                decreases n - j,
            {
                if is_space_exec(text.get_char(j)) {
                    break;
                }
                j = j + 1;
            }
            proof {
                lemma_next_space(t, i as int);
                let nx = next_space(t, i as int);
                if nx < j {
                    assert(!is_space(t[nx]));
                }
                if nx > j {
                    assert(!is_space(t[j as int]));
                }
                assert(j == nx);
            }
            let word = text.substring_char(i, j);
            let ghost w = t.subrange(i as int, j as int);
            if words > 0 {
                out.append(" ");
                proof {
                    reveal_strlit(" ");
                }
            }
            out.append(word);
            proof {
                lemma_join_snoc(ws, w);
                ws = ws.push(w);
                lemma_next_space(t, i as int);
                assert(0 <= i < t.len() && !is_space(t[i as int]));
                assert(spec_words(t, i as int) == spec_words_word(t, i as int));
                assert(spec_words_word(t, i as int) == seq![t.subrange(
                    i as int,
                    next_space(t, i as int),
                )] + spec_words(t, next_space(t, i as int)));
                assert(next_space(t, i as int) == j as int);
                assert(spec_words(t, i as int) == seq![w] + spec_words(t, j as int));
                assert(ws + spec_words(t, j as int) =~= (ws.drop_last() + (seq![w]
                    + spec_words(t, j as int))));
                assert(spec_words(t, 0) == ws + spec_words(t, j as int));
                assert(out@ =~= spec_join_words(ws));
            }
            words = words + 1;
            i = j;
        }
    }
    proof {
        assert(spec_words(t, n as int) =~= Seq::<Seq<char>>::empty());
        assert(ws + spec_words(t, n as int) =~= ws);
    }
    out
}

/// Is `c` ASCII whitespace, executably.
fn is_space_exec(c: char) -> (r: bool)
    ensures
        r == is_space(c),
{
    c == ' ' || c == '\t' || c == '\n' || c == '\r'
}

/// What `truncate_text` returns: the text itself when it fits, else its
/// first `max_len` code points followed by an ellipsis.
pub open spec fn spec_truncate(s: Seq<char>, max_len: int) -> Seq<char> {
    if s.len() <= max_len {
        s
    } else {
        s.subrange(0, max_len) + "..."@
    }
}

/// Truncates `text` to at most `max_len` code points, appending `...` when
/// anything was cut.
pub fn truncate_text(text: &str, max_len: usize) -> (r: String)
    ensures
        r@ == spec_truncate(text@, max_len as int),
{
    let n = text.unicode_len();
    if n <= max_len {
        text.to_owned()
    } else {
        let mut s = text.substring_char(0, max_len).to_owned();
        s.append("...");
        s
    }
}

/// Round-half-even division: the banker's rounding of `n / d`.
pub open spec fn round_half_even(n: int, d: int) -> int {
    let q = n / d;
    let r = n % d;
    if 2 * r > d {
        q + 1
    } else if 2 * r == d {
        if q % 2 == 0 {
            q
        } else {
            q + 1
        }
    } else {
        q
    }
}

/// Unit index for a byte count: 0 for B up to 4 for TB.
pub open spec fn byte_unit(bytes: int) -> int {
    if bytes < 1024 {
        0
    } else if bytes < 1048576 {
        1
    } else if bytes < 1073741824 {
        2
    } else if bytes < 1099511627776 {
        3
    } else {
        4
    }
}

/// The divisor belonging to a unit index.
pub open spec fn byte_divisor(u: int) -> int {
    if u == 0 {
        1
    } else if u == 1 {
        1024
    } else if u == 2 {
        1048576
    } else if u == 3 {
        1073741824
    } else {
        1099511627776
    }
}

/// The suffix belonging to a unit index.
pub open spec fn byte_suffix(u: int) -> Seq<char> {
    if u == 0 {
        " B"@
    } else if u == 1 {
        " KB"@
    } else if u == 2 {
        " MB"@
    } else if u == 3 {
        " GB"@
    } else {
        " TB"@
    }
}

/// What `format_bytes` returns: the count scaled into its unit with two
/// rounded decimal places, then the unit suffix.
pub open spec fn spec_format_bytes(bytes: int) -> Seq<char> {
    let u = byte_unit(bytes);
    let h = round_half_even(bytes * 100, byte_divisor(u));
    dec_str(h / 100) + "."@ + seq![spec_digit(h % 100 / 10), spec_digit(h % 10)] + byte_suffix(u)
}

/// Renders a byte count human-readably, as in `1.50 KB`.
#[verifier::rlimit(50)]
pub fn format_bytes(bytes: u64) -> (r: String)
    ensures
        r@ == spec_format_bytes(bytes as int),
{
    let (divisor, suffix): (u64, &'static str) = if bytes < 1024 {
        (1, " B")
    } else if bytes < 1048576 {
        (1024, " KB")
    } else if bytes < 1073741824 {
        (1048576, " MB")
    } else if bytes < 1099511627776 {
        (1073741824, " GB")
    } else {
        (1099511627776, " TB")
    };
    proof {
        reveal_strlit(" B");
        reveal_strlit(" KB");
        reveal_strlit(" MB");
        reveal_strlit(" GB");
        reveal_strlit(" TB");
        reveal_strlit(".");
        assert(suffix@ == byte_suffix(byte_unit(bytes as int)));
        assert(divisor as int == byte_divisor(byte_unit(bytes as int)));
    }
    let n: u128 = (bytes as u128) * 100;
    let d: u128 = divisor as u128;
    let q: u128 = n / d;
    let rem: u128 = n % d;
    let h: u128 = if 2 * rem > d {
        q + 1
    } else if 2 * rem == d {
        if q % 2 == 0 {
            q
        } else {
            q + 1
        }
    } else {
        q
    };
    proof {
        assert(h as int == round_half_even(bytes as int * 100, divisor as int));
        assert(bytes as int * 100 / divisor as int <= 18446744073709551615int * 100)
            by (nonlinear_arith)
            requires divisor >= 1, bytes <= u64::MAX,
        ;
    }
    let whole: u64 = (h / 100) as u64;
    let frac: u64 = (h % 100) as u64;
    let mut s = u64_to_dec(whole);
    s.append(".");
    s.append(digit_str(frac / 10));
    s.append(digit_str(frac % 10));
    s.append(suffix);
    s
}

} // verus!
