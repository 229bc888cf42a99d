//! Character-level text helpers: Unicode whitespace trimming, suffix
//! stripping, code-point ordering of strings, decimal rendering of integers
//! and the few std string conversions the library needs.
use vstd::prelude::*;

verus! {

/// The Unicode `White_Space` property, which is what `char::is_whitespace`
/// tests for.
pub open spec fn is_white_space(c: char) -> bool {
    let u = c as u32;
    ||| 0x09 <= u <= 0x0d
    ||| u == 0x20
    ||| u == 0x85
    ||| u == 0xa0
    ||| u == 0x1680
    ||| 0x2000 <= u <= 0x200a
    ||| u == 0x2028
    ||| u == 0x2029
    ||| u == 0x202f
    ||| u == 0x205f
    ||| u == 0x3000
}

pub fn char_is_white_space(c: char) -> (r: bool)
    ensures
        r == is_white_space(c),
{
    let u = c as u32;
    (0x09 <= u && u <= 0x0d) || u == 0x20 || u == 0x85 || u == 0xa0 || u == 0x1680 || (0x2000 <= u
        && u <= 0x200a) || u == 0x2028 || u == 0x2029 || u == 0x202f || u == 0x205f || u == 0x3000
}

/// Drops leading whitespace.
pub open spec fn trim_start(s: Seq<char>) -> Seq<char>
    decreases s.len(),
{
    if s.len() > 0 && is_white_space(s[0]) {
        trim_start(s.drop_first())
    } else {
        s
    }
}

/// Drops trailing whitespace.
pub open spec fn trim_end(s: Seq<char>) -> Seq<char>
    decreases s.len(),
{
    if s.len() > 0 && is_white_space(s.last()) {
        trim_end(s.drop_last())
    } else {
        s
    }
}

/// What `str::trim` returns.
pub open spec fn trim(s: Seq<char>) -> Seq<char> {
    trim_end(trim_start(s))
}

/// Drops every trailing occurrence of `c` (`str::trim_end_matches` with a char).
pub open spec fn trim_end_char(s: Seq<char>, c: char) -> Seq<char>
    decreases s.len(),
{
    if s.len() > 0 && s.last() == c {
        trim_end_char(s.drop_last(), c)
    } else {
        s
    }
}

/// Code-point lexicographic order, which is the order of Rust's `str`
/// comparison (UTF-8 bytes compare in code-point order).
pub open spec fn seq_lt(a: Seq<char>, b: Seq<char>) -> bool
    decreases a.len(),
{
    if a.len() == 0 {
        b.len() > 0
    } else if b.len() == 0 {
        false
    } else if a[0] != b[0] {
        (a[0] as int) < (b[0] as int)
    } else {
        seq_lt(a.drop_first(), b.drop_first())
    }
}

pub proof fn lemma_trim_start_skip(s: Seq<char>, i: int)
    requires
        0 <= i <= s.len(),
        forall|k: int| 0 <= k < i ==> is_white_space(#[trigger] s[k]),
    ensures
        trim_start(s) == trim_start(s.skip(i)),
    decreases i,
{
    if i > 0 {
        lemma_trim_start_skip(s, i - 1);
        assert(s.skip(i - 1).drop_first() =~= s.skip(i));
    } else {
        assert(s.skip(0) =~= s);
    }
}

pub proof fn lemma_trim_end_take(s: Seq<char>, j: int)
    requires
        0 <= j <= s.len(),
        forall|k: int| j <= k < s.len() ==> is_white_space(#[trigger] s[k]),
    ensures
        trim_end(s) == trim_end(s.take(j)),
    decreases s.len() - j,
{
    if j < s.len() {
        lemma_trim_end_take(s, j + 1);
        assert(s.take(j + 1).drop_last() =~= s.take(j));
    } else {
        assert(s.take(j) =~= s);
    }
}

pub proof fn lemma_trim_end_char_take(s: Seq<char>, c: char, j: int)
    requires
        0 <= j <= s.len(),
        forall|k: int| j <= k < s.len() ==> #[trigger] s[k] == c,
    ensures
        trim_end_char(s, c) == trim_end_char(s.take(j), c),
    decreases s.len() - j,
{
    if j < s.len() {
        lemma_trim_end_char_take(s, c, j + 1);
        assert(s.take(j + 1).drop_last() =~= s.take(j));
    } else {
        assert(s.take(j) =~= s);
    }
}

/// A trimmed sequence neither starts nor ends with whitespace, and trimming
/// it again changes nothing.
pub proof fn lemma_trim_idempotent(s: Seq<char>)
    ensures
        trim(trim(s)) == trim(s),
        trim(s).len() > 0 ==> !is_white_space(trim(s)[0]) && !is_white_space(trim(s).last()),
{
    lemma_trim_start_shape(s);
    let t = trim_start(s);
    lemma_trim_end_keeps_start(t);
    lemma_trim_end_shape(t);
    let u = trim_end(t);
    // u does not start with whitespace, so trim_start(u) == u
    assert(trim_start(u) == u);
    assert(trim_end(u) == u);
}

proof fn lemma_trim_start_shape(s: Seq<char>)
    ensures
        trim_start(s).len() > 0 ==> !is_white_space(trim_start(s)[0]),
    decreases s.len(),
{
    if s.len() > 0 && is_white_space(s[0]) {
        lemma_trim_start_shape(s.drop_first());
    }
}

proof fn lemma_trim_end_shape(s: Seq<char>)
    ensures
        trim_end(s).len() > 0 ==> !is_white_space(trim_end(s).last()),
        trim_end(trim_end(s)) == trim_end(s),
    decreases s.len(),
{
    if s.len() > 0 && is_white_space(s.last()) {
        lemma_trim_end_shape(s.drop_last());
    }
}

proof fn lemma_trim_end_keeps_start(s: Seq<char>)
    ensures
        trim_end(s).len() <= s.len(),
        trim_end(s) =~= s.take(trim_end(s).len() as int),
        (s.len() > 0 && !is_white_space(s[0])) ==> trim_end(s).len() > 0 && trim_end(s)[0] == s[0],
    decreases s.len(),
{
    if s.len() > 0 && is_white_space(s.last()) {
        lemma_trim_end_keeps_start(s.drop_last());
    }
}

pub proof fn lemma_seq_lt_irreflexive(a: Seq<char>)
    ensures
        !seq_lt(a, a),
    decreases a.len(),
{
    if a.len() > 0 {
        lemma_seq_lt_irreflexive(a.drop_first());
    }
}

pub proof fn lemma_seq_lt_transitive(a: Seq<char>, b: Seq<char>, c: Seq<char>)
    requires
        seq_lt(a, b),
        seq_lt(b, c),
    ensures
        seq_lt(a, c),
    decreases a.len(),
{
    if a.len() > 0 && b.len() > 0 && c.len() > 0 && a[0] == b[0] && b[0] == c[0] {
        lemma_seq_lt_transitive(a.drop_first(), b.drop_first(), c.drop_first());
    }
}

pub proof fn lemma_seq_lt_total(a: Seq<char>, b: Seq<char>)
    ensures
        a == b || seq_lt(a, b) || seq_lt(b, a),
    decreases a.len(),
{
    if a.len() > 0 && b.len() > 0 {
        if a[0] == b[0] {
            lemma_seq_lt_total(a.drop_first(), b.drop_first());
            if a.drop_first() == b.drop_first() {
                assert(a =~= seq![a[0]] + a.drop_first());
                assert(b =~= seq![b[0]] + b.drop_first());
            }
        } else {
            assert((a[0] as int) != (b[0] as int));
        }
    } else if a.len() == 0 && b.len() == 0 {
        assert(a =~= b);
    }
}

pub proof fn lemma_seq_lt_asymmetric(a: Seq<char>, b: Seq<char>)
    ensures
        !(seq_lt(a, b) && seq_lt(b, a)),
{
    if seq_lt(a, b) && seq_lt(b, a) {
        lemma_seq_lt_transitive(a, b, a);
        lemma_seq_lt_irreflexive(a);
    }
}

/// `str::trim`.
pub fn trim_str(s: &str) -> (r: String)
    ensures
        r@ == trim(s@),
{
    let n = s.unicode_len();
    let mut i: usize = 0;
    while i < n && char_is_white_space(s.get_char(i))
        invariant
            n == s@.len(),
            0 <= i <= n,
            forall|k: int| 0 <= k < i ==> is_white_space(#[trigger] s@[k]),
        decreases n - i,
    {
        i = i + 1;
    }
    proof {
        lemma_trim_start_skip(s@, i as int);
        assert(trim_start(s@.skip(i as int)) == s@.skip(i as int));
    }
    let ghost t = s@.skip(i as int);
    let mut j: usize = n;
    while j > i && char_is_white_space(s.get_char(j - 1))
        invariant
            n == s@.len(),
            0 <= i <= j <= n,
            t == s@.skip(i as int),
            forall|k: int| j <= k < n ==> is_white_space(#[trigger] s@[k]),
        decreases j,
    {
        j = j - 1;
    }
    proof {
        assert forall|k: int| (j - i) <= k < t.len() implies is_white_space(#[trigger] t[k]) by {
            assert(t[k] == s@[k + i]);
        }
        lemma_trim_end_take(t, (j - i) as int);
        let u = t.take((j - i) as int);
        assert(u =~= s@.subrange(i as int, j as int));
        if u.len() > 0 {
            assert(u.last() == s@[j - 1]);
        }
        assert(trim_end(u) == u);
    }
    s.substring_char(i, j).to_owned()
}

/// `str::trim_end_matches` with a single character.
pub fn trim_end_char_str(s: &str, c: char) -> (r: String)
    ensures
        r@ == trim_end_char(s@, c),
{
    let n = s.unicode_len();
    let mut j: usize = n;
    while j > 0 && s.get_char(j - 1) == c
        invariant
            n == s@.len(),
            0 <= j <= n,
            forall|k: int| j <= k < n ==> #[trigger] s@[k] == c,
        decreases j,
    {
        j = j - 1;
    }
    proof {
        lemma_trim_end_char_take(s@, c, j as int);
        let u = s@.take(j as int);
        if u.len() > 0 {
            assert(u.last() == s@[j - 1]);
        }
        assert(trim_end_char(u, c) == u);
        assert(u =~= s@.subrange(0, j as int));
    }
    s.substring_char(0, j).to_owned()
}

/// Code-point lexicographic `a < b`.
pub fn str_lt(a: &str, b: &str) -> (r: bool)
    ensures
        r == seq_lt(a@, b@),
{
    let na = a.unicode_len();
    let nb = b.unicode_len();
    let mut i: usize = 0;
    assert(a@.skip(0) =~= a@);
    assert(b@.skip(0) =~= b@);
    while i < na && i < nb
        invariant
            na == a@.len(),
            nb == b@.len(),
            0 <= i <= na,
            i <= nb,
            seq_lt(a@, b@) == seq_lt(a@.skip(i as int), b@.skip(i as int)),
        decreases na - i,
    {
        let ca = a.get_char(i);
        let cb = b.get_char(i);
        if ca != cb {
            proof {
                assert(a@.skip(i as int)[0] == ca);
                assert(b@.skip(i as int)[0] == cb);
            }
            return (ca as u32) < (cb as u32);
        }
        proof {
            assert(a@.skip(i as int).drop_first() =~= a@.skip(i + 1));
            assert(b@.skip(i as int).drop_first() =~= b@.skip(i + 1));
        }
        i = i + 1;
    }
    i == na && i < nb
}

/// Code-point equality of two strings.
pub fn str_eq(a: &str, b: &str) -> (r: bool)
    ensures
        r == (a@ == b@),
{
    let na = a.unicode_len();
    let nb = b.unicode_len();
    if na != nb {
        return false;
    }
    let mut i: usize = 0;
    while i < na
        invariant
            na == a@.len(),
            nb == b@.len(),
            na == nb,
            0 <= i <= na,
            forall|k: int| 0 <= k < i ==> a@[k] == b@[k],
        decreases na - i,
    {
        if a.get_char(i) != b.get_char(i) {
            return false;
        }
        i = i + 1;
    }
    assert(a@ =~= b@);
    true
}

/// What `str::to_lowercase` returns: Unicode's lowercase mapping of each
/// character, a function of the text alone.
pub uninterp spec fn lowercase(s: Seq<char>) -> Seq<char>;

/// Calls `str::to_lowercase`; its result is named `lowercase` of the input.
#[verifier::external_body]
pub(crate) fn to_lowercase_str(s: &str) -> (r: String)
    ensures
        r@ == lowercase(s@),
{
    s.to_lowercase()
}

/// Calls `char::to_string`, which holds exactly that one character.
#[verifier::external_body]
pub(crate) fn char_to_string(c: char) -> (r: String)
    ensures
        r@ == seq![c],
{
    c.to_string()
}

/// `a` followed by `b`.
pub fn concat2(a: &str, b: &str) -> (r: String)
    ensures
        r@ == a@ + b@,
{
    let mut r = a.to_owned();
    r.append(b);
    r
}

pub fn concat3(a: &str, b: &str, c: &str) -> (r: String)
    ensures
        r@ == a@ + b@ + c@,
{
    let mut r = a.to_owned();
    r.append(b);
    r.append(c);
    r
}

pub open spec fn digit_char(d: nat) -> char {
    if d == 0 {
        '0'
    } else if d == 1 {
        '1'
    } else if d == 2 {
        '2'
    } else if d == 3 {
        '3'
    } else if d == 4 {
        '4'
    } else if d == 5 {
        '5'
    } else if d == 6 {
        '6'
    } else if d == 7 {
        '7'
    } else if d == 8 {
        '8'
    } else {
        '9'
    }
}

/// Decimal digits of a natural number, most significant first, no leading zeros.
pub open spec fn nat_decimal(n: nat) -> Seq<char>
    decreases n,
{
    if n < 10 {
        seq![digit_char(n)]
    } else {
        nat_decimal(n / 10).push(digit_char(n % 10))
    }
}

/// What `i64`'s `Display` writes.
pub open spec fn int_decimal(n: int) -> Seq<char> {
    if n < 0 {
        seq!['-'] + nat_decimal((-n) as nat)
    } else {
        nat_decimal(n as nat)
    }
}

fn digit_to_char(d: u64) -> (c: char)
    requires
        d < 10,
    ensures
        c == digit_char(d as nat),
{
    if d == 0 {
        '0'
    } else if d == 1 {
        '1'
    } else if d == 2 {
        '2'
    } else if d == 3 {
        '3'
    } else if d == 4 {
        '4'
    } else if d == 5 {
        '5'
    } else if d == 6 {
        '6'
    } else if d == 7 {
        '7'
    } else if d == 8 {
        '8'
    } else {
        '9'
    }
}

pub fn u64_to_decimal(n: u64) -> (r: String)
    ensures
        r@ == nat_decimal(n as nat),
    decreases n,
{
    if n < 10 {
        char_to_string(digit_to_char(n))
    } else {
        let mut r = u64_to_decimal(n / 10);
        let d = char_to_string(digit_to_char(n % 10));
        r.append(d.as_str());
        r
    }
}

/// `i64::to_string`.
pub fn i64_to_decimal(n: i64) -> (r: String)
    ensures
        r@ == int_decimal(n as int),
{
    if n < 0 {
        let magnitude: u64 = if n == i64::MIN {
            9223372036854775808u64
        } else {
            (-n) as u64
        };
        assert(magnitude as int == -(n as int));
        let digits = u64_to_decimal(magnitude);
        let r = concat2("-", digits.as_str());
        proof {
            reveal_strlit("-");
        }
        r
    } else {
        u64_to_decimal(n as u64)
    }
}

/// The character sequences of a list of strings.
pub open spec fn strs_view(v: Seq<String>) -> Seq<Seq<char>> {
    v.map_values(|s: String| s@)
}

pub proof fn lemma_strs_push_set(v: Seq<String>, x: String)
    ensures
        strs_view(v.push(x)).to_set() == strs_view(v).to_set().insert(x@),
{
    let a = strs_view(v);
    let b = strs_view(v.push(x));
    assert(b =~= a.push(x@));
    assert forall|y| b.to_set().contains(y) <==> a.to_set().insert(x@).contains(y) by {
        if b.to_set().contains(y) {
            let k = choose|k: int| 0 <= k < b.len() && b[k] == y;
            if k < a.len() {
                assert(a[k] == y);
            }
        }
        if a.to_set().contains(y) {
            let k = choose|k: int| 0 <= k < a.len() && a[k] == y;
            assert(b[k] == y);
        }
        if y == x@ {
            assert(b[a.len() as int] == y);
        }
    }
    assert(b.to_set() =~= a.to_set().insert(x@));
}

/// Whether some string of the list equals `x`.
pub fn strs_contain(v: &Vec<String>, x: &str) -> (r: bool)
    ensures
        r == strs_view(v@).contains(x@),
{
    let mut j: usize = 0;
    while j < v.len()
        invariant
            0 <= j <= v@.len(),
            forall|k: int| 0 <= k < j ==> v@[k]@ != x@,
        decreases v@.len() - j,
    {
        if str_eq(v[j].as_str(), x) {
            proof {
                assert(strs_view(v@)[j as int] == x@);
            }
            return true;
        }
        j = j + 1;
    }
    proof {
        if strs_view(v@).contains(x@) {
            let k = choose|k: int| 0 <= k < strs_view(v@).len() && strs_view(v@)[k] == x@;
            assert(v@[k]@ == x@);
        }
    }
    false
}

/// The texts joined with `sep` between consecutive ones (`[T]::join`).
pub open spec fn join_texts(parts: Seq<Seq<char>>, sep: Seq<char>) -> Seq<char>
    decreases parts.len(),
{
    if parts.len() == 0 {
        Seq::empty()
    } else if parts.len() == 1 {
        parts[0]
    } else {
        join_texts(parts.drop_last(), sep) + sep + parts.last()
    }
}

/// `parts.join(sep)`.
pub fn join_strings(parts: &Vec<String>, sep: &str) -> (r: String)
    ensures
        r@ == join_texts(strs_view(parts@), sep@),
{
    let ghost pv = strs_view(parts@);
    let mut r = String::new();
    let mut i: usize = 0;
    proof {
        assert(pv.take(0) =~= Seq::<Seq<char>>::empty());
    }
    while i < parts.len()
        invariant
            0 <= i <= parts@.len(),
            pv == strs_view(parts@),
            r@ == join_texts(pv.take(i as int), sep@),
        decreases parts@.len() - i,
    {
        proof {
            assert(pv.take(i + 1).drop_last() =~= pv.take(i as int));
            assert(pv.take(i + 1).last() == parts@[i as int]@);
        }
        if i == 0 {
            r = parts[0].clone();
            proof {
                assert(pv.take(1) =~= seq![parts@[0]@]);
            }
        } else {
            r = concat3(r.as_str(), sep, parts[i].as_str());
        }
        i = i + 1;
    }
    proof {
        assert(pv.take(i as int) =~= pv);
    }
    r
}

/// The pieces of a text split at `sep`, as `str::split` gives them.
pub open spec fn split_pieces(s: Seq<char>, sep: char) -> Seq<Seq<char>>
    decreases s.len(),
{
    if s.len() == 0 {
        seq![Seq::empty()]
    } else {
        let p = split_pieces(s.drop_last(), sep);
        if s.last() == sep {
            p.push(Seq::empty())
        } else {
            p.update(p.len() - 1, p.last().push(s.last()))
        }
    }
}

/// The pieces trimmed, blank ones left out.
pub open spec fn nonblank_trimmed(pieces: Seq<Seq<char>>) -> Seq<Seq<char>>
    decreases pieces.len(),
{
    if pieces.len() == 0 {
        Seq::empty()
    } else if trim(pieces.last()).len() > 0 {
        nonblank_trimmed(pieces.drop_last()).push(trim(pieces.last()))
    } else {
        nonblank_trimmed(pieces.drop_last())
    }
}

/// The non-blank pieces of `s` split at `sep`, each trimmed.
pub fn split_nonblank_trimmed(s: &str, sep: char) -> (r: Vec<String>)
    ensures
        strs_view(r@) == nonblank_trimmed(split_pieces(s@, sep)),
{
    let n = s.unicode_len();
    let mut done: Vec<String> = Vec::new();
    let ghost completed: Seq<Seq<char>> = Seq::empty();
    let mut current = String::new();
    let mut i: usize = 0;
    proof {
        assert(s@.take(0) =~= Seq::<char>::empty());
        assert(split_pieces(s@.take(0), sep) =~= completed.push(current@));
        assert(strs_view(done@) =~= nonblank_trimmed(completed));
    }
    while i < n
        invariant
            0 <= i <= n,
            n == s@.len(),
            split_pieces(s@.take(i as int), sep) == completed.push(current@),
            strs_view(done@) == nonblank_trimmed(completed),
        decreases n - i,
    {
        let c = s.get_char(i);
        proof {
            assert(s@.take(i + 1).drop_last() =~= s@.take(i as int));
            assert(s@.take(i + 1).last() == c);
        }
        if c == sep {
            let piece = trim_str(current.as_str());
            let ghost before = strs_view(done@);
            if !piece.as_str().is_empty() {
                done.push(piece);
                proof {
                    assert(strs_view(done@) =~= before.push(trim(current@)));
                }
            }
            proof {
                assert(completed.push(current@).drop_last() =~= completed);
                completed = completed.push(current@);
            }
            current = String::new();
            proof {
                assert(split_pieces(s@.take(i + 1), sep) =~= completed.push(current@));
            }
        } else {
            let piece = char_to_string(c);
            let ghost old_current = current@;
            current = concat2(current.as_str(), piece.as_str());
            proof {
                assert(current@ =~= old_current.push(c));
                let p = completed.push(old_current);
                assert(p.update(p.len() - 1, p.last().push(c)) =~= completed.push(current@));
            }
        }
        i = i + 1;
    }
    proof {
        assert(s@.take(i as int) =~= s@);
    }
    let piece = trim_str(current.as_str());
    let ghost before = strs_view(done@);
    if !piece.as_str().is_empty() {
        done.push(piece);
        proof {
            assert(strs_view(done@) =~= before.push(trim(current@)));
        }
    }
    proof {
        assert(completed.push(current@).drop_last() =~= completed);
    }
    done
}

/// Splitting text that follows a piece ending at `sep` (or nothing)
/// continues the pieces of the first part.
pub proof fn lemma_split_after_separator(a: Seq<char>, b: Seq<char>, sep: char)
    requires
        a.len() == 0 || a.last() == sep,
    ensures
        split_pieces(a + b, sep) == split_pieces(a, sep).drop_last() + split_pieces(b, sep),
    decreases b.len(),
{
    lemma_split_pieces_nonempty(a, sep);
    lemma_split_pieces_nonempty(b, sep);
    if b.len() == 0 {
        assert(a + b =~= a);
        if a.len() > 0 {
            assert(a =~= a.drop_last().push(sep));
            lemma_split_pieces_nonempty(a.drop_last(), sep);
        }
        assert(split_pieces(a, sep).last() =~= Seq::<char>::empty());
        assert(split_pieces(a, sep) =~= split_pieces(a, sep).drop_last() + split_pieces(b, sep));
    } else {
        let b2 = b.drop_last();
        lemma_split_after_separator(a, b2, sep);
        lemma_split_pieces_nonempty(b2, sep);
        assert((a + b).drop_last() =~= a + b2);
        assert((a + b).last() == b.last());
        let p = split_pieces(a, sep).drop_last();
        let q = split_pieces(b2, sep);
        if b.last() == sep {
            assert((p + q).push(Seq::<char>::empty()) =~= p + q.push(Seq::<char>::empty()));
        } else {
            let c = b.last();
            assert((p + q).update((p + q).len() - 1, (p + q).last().push(c)) =~= p + q.update(
                q.len() - 1,
                q.last().push(c),
            ));
        }
    }
}

pub proof fn lemma_split_pieces_nonempty(s: Seq<char>, sep: char)
    ensures
        split_pieces(s, sep).len() >= 1,
    decreases s.len(),
{
    if s.len() > 0 {
        lemma_split_pieces_nonempty(s.drop_last(), sep);
    }
}

/// Text without the separator is one piece.
pub proof fn lemma_split_single(s: Seq<char>, sep: char)
    requires
        !s.contains(sep),
    ensures
        split_pieces(s, sep) == seq![s],
    decreases s.len(),
{
    if s.len() > 0 {
        let d = s.drop_last();
        assert(!d.contains(sep)) by {
            if d.contains(sep) {
                let k = choose|k: int| 0 <= k < d.len() && d[k] == sep;
                assert(s[k] == sep);
            }
        }
        lemma_split_single(d, sep);
        assert(s.last() != sep) by {
            assert(s[s.len() - 1] == s.last());
        }
        assert(d.push(s.last()) =~= s);
        assert(seq![d].last() == d);
        assert(seq![d].update(0, d.push(s.last())) =~= seq![s]);
    } else {
        assert(s =~= Seq::<char>::empty());
    }
}

pub proof fn lemma_nonblank_append(p: Seq<Seq<char>>, q: Seq<Seq<char>>)
    ensures
        nonblank_trimmed(p + q) == nonblank_trimmed(p) + nonblank_trimmed(q),
    decreases q.len(),
{
    if q.len() == 0 {
        assert(p + q =~= p);
        assert(nonblank_trimmed(p) + nonblank_trimmed(q) =~= nonblank_trimmed(p));
    } else {
        lemma_nonblank_append(p, q.drop_last());
        assert((p + q).drop_last() =~= p + q.drop_last());
        assert((p + q).last() == q.last());
        if trim(q.last()).len() > 0 {
            assert((nonblank_trimmed(p) + nonblank_trimmed(q.drop_last())).push(trim(q.last())) =~= nonblank_trimmed(p)
                + nonblank_trimmed(q.drop_last()).push(trim(q.last())));
        }
    }
}

/// Pieces that are already trimmed and not blank are kept as they are.
pub proof fn lemma_nonblank_keeps(p: Seq<Seq<char>>)
    requires
        forall|i: int| 0 <= i < p.len() ==> trim(#[trigger] p[i]) == p[i] && p[i].len() > 0,
    ensures
        nonblank_trimmed(p) == p,
    decreases p.len(),
{
    if p.len() > 0 {
        let d = p.drop_last();
        assert forall|i: int| 0 <= i < d.len() implies trim(#[trigger] d[i]) == d[i] && d[i].len() > 0 by {
            assert(d[i] == p[i]);
        }
        lemma_nonblank_keeps(d);
        assert(trim(p[p.len() - 1]) == p[p.len() - 1]);
        assert(d.push(p.last()) =~= p);
    }
}

/// ASCII lower-casing of one character, by its code.
pub open spec fn ascii_lower_code(c: char) -> u32 {
    if 'A' <= c && c <= 'Z' {
        (c as u32 + 32) as u32
    } else {
        c as u32
    }
}

/// Equality of two texts when ASCII letters are compared without case
/// (`str::eq_ignore_ascii_case`).
pub open spec fn eq_ignore_ascii_case(a: Seq<char>, b: Seq<char>) -> bool {
    a.len() == b.len() && forall|i: int|
        0 <= i < a.len() ==> ascii_lower_code(#[trigger] a[i]) == ascii_lower_code(b[i])
}

fn char_ascii_lower_code(c: char) -> (r: u32)
    ensures
        r == ascii_lower_code(c),
{
    if 'A' <= c && c <= 'Z' {
        c as u32 + 32
    } else {
        c as u32
    }
}

/// Compares two texts with ASCII letters taken without case.
pub fn str_eq_ignore_ascii_case(a: &str, b: &str) -> (r: bool)
    ensures
        r == eq_ignore_ascii_case(a@, b@),
{
    let na = a.unicode_len();
    let nb = b.unicode_len();
    if na != nb {
        return false;
    }
    let mut i: usize = 0;
    while i < na
        invariant
            na == a@.len(),
            nb == b@.len(),
            na == nb,
            0 <= i <= na,
            forall|k: int| 0 <= k < i ==> ascii_lower_code(#[trigger] a@[k]) == ascii_lower_code(b@[k]),
        decreases na - i,
    {
        if char_ascii_lower_code(a.get_char(i)) != char_ascii_lower_code(b.get_char(i)) {
            return false;
        }
        i = i + 1;
    }
    true
}

} // verus!
