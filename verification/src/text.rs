use vstd::prelude::*;

verus! {

/// The characters of `s`, in order.
pub fn chars_of(s: &str) -> (res: Vec<char>)
    ensures
        res@ == s@,
{
    let mut res: Vec<char> = Vec::new();
    for c in it: s.chars()
        invariant
            res@ == it.seq().take(it.index() as int),
            it.seq() == s@,
    {
        res.push(c);
    }
    res
}

/// Appends one character to a string (std's `String::push`).
#[verifier::external_body]
pub(crate) fn push_char(s: &mut String, c: char)
    ensures
        final(s)@ == old(s)@.push(c),
{
    s.push(c);
}

/// The string whose characters are `chars[from..to]`.
pub fn string_from_range(chars: &Vec<char>, from: usize, to: usize) -> (res: String)
    requires
        from <= to <= chars@.len(),
    ensures
        res@ == chars@.subrange(from as int, to as int),
{
    let mut res = String::new();
    let mut i = from;
    while i < to
        invariant
            from <= i <= to <= chars@.len(),
            res@ == chars@.subrange(from as int, i as int),
        decreases to - i,
    {
        push_char(&mut res, chars[i]);
        assert(chars@.subrange(from as int, i + 1) == chars@.subrange(from as int, i as int).push(chars@[i as int]));
        i += 1;
    }
    res
}

/// The string whose characters are `chars`.
pub fn string_from_chars(chars: &Vec<char>) -> (res: String)
    ensures
        res@ == chars@,
{
    let res = string_from_range(chars, 0, chars.len());
    assert(chars@.subrange(0, chars@.len() as int) == chars@);
    res
}

/// A copy of `s` with the same characters.
pub fn copy_string(s: &String) -> (res: String)
    ensures
        res@ == s@,
{
    s.clone()
}

/// Whether two character sequences are equal.
pub fn chars_eq(a: &Vec<char>, b: &Vec<char>) -> (res: bool)
    ensures
        res == (a@ == b@),
{
    if a.len() != b.len() {
        return false;
    }
    let mut i: usize = 0;
    while i < a.len()
        invariant
            a@.len() == b@.len(),
            i <= a@.len(),
            forall|j: int| 0 <= j < i ==> a@[j] == b@[j],
        decreases a.len() - i,
    {
        if a[i] != b[i] {
            return false;
        }
        i += 1;
    }
    assert(a@ =~= b@);
    true
}

/// Whether the string `s` has exactly the characters of `lit`.
pub fn str_is(s: &str, lit: &str) -> (res: bool)
    ensures
        res == (s@ == lit@),
{
    let a = chars_of(s);
    let b = chars_of(lit);
    chars_eq(&a, &b)
}

/// Whether two optional strings hold the same text.
pub fn opt_text_eq(a: &Option<String>, b: &Option<String>) -> (res: bool)
    ensures
        res == (opt_view(*a) == opt_view(*b)),
{
    match (a, b) {
        (Some(x), Some(y)) => *x == *y,
        (None, None) => true,
        _ => false,
    }
}

/// The text of an optional string.
pub open spec fn opt_view(o: Option<String>) -> Option<Seq<char>> {
    match o {
        Some(s) => Some(s@),
        None => None,
    }
}

/// A copy of an optional string.
pub fn copy_opt_string(o: &Option<String>) -> (res: Option<String>)
    ensures
        opt_view(res) == opt_view(*o),
{
    match o {
        Some(s) => Some(s.clone()),
        None => None,
    }
}

/// Whether `c` is white space in Unicode's sense (`char::is_whitespace`).
pub open spec fn is_white(c: char) -> bool {
    ||| c == '\t' || c == '\n' || c == '\u{0B}' || c == '\u{0C}' || c == '\r' || c == ' '
    ||| c == '\u{85}' || c == '\u{A0}' || c == '\u{1680}'
    ||| ('\u{2000}' <= c && c <= '\u{200A}')
    ||| c == '\u{2028}' || c == '\u{2029}' || c == '\u{202F}' || c == '\u{205F}' || c == '\u{3000}'
}

/// Executable form of [`is_white`].
pub fn is_whitespace_char(c: char) -> (res: bool)
    ensures
        res == is_white(c),
{
    c == '\t' || c == '\n' || c == '\u{0B}' || c == '\u{0C}' || c == '\r' || c == ' '
        || c == '\u{85}' || c == '\u{A0}' || c == '\u{1680}'
        || ('\u{2000}' <= c && c <= '\u{200A}')
        || c == '\u{2028}' || c == '\u{2029}' || c == '\u{202F}' || c == '\u{205F}' || c == '\u{3000}'
}

/// Index of the first character that is not white space (the length when there is none).
pub open spec fn trim_start_index(s: Seq<char>) -> int
    decreases s.len(),
{
    if s.len() == 0 {
        0
    } else if is_white(s[0]) {
        1 + trim_start_index(s.drop_first())
    } else {
        0
    }
}

/// Index just past the last character that is not white space (0 when there is none).
pub open spec fn trim_end_index(s: Seq<char>) -> int
    decreases s.len(),
{
    if s.len() == 0 {
        0
    } else if is_white(s.last()) {
        trim_end_index(s.drop_last())
    } else {
        s.len() as int
    }
}

/// `s` without leading and trailing white space (`str::trim`).
pub open spec fn trimmed(s: Seq<char>) -> Seq<char> {
    let e = trim_end_index(s);
    let b = if trim_start_index(s) <= e { trim_start_index(s) } else { e };
    s.subrange(b, e)
}

proof fn lemma_trim_end_bounds(s: Seq<char>)
    ensures
        0 <= trim_end_index(s) <= s.len(),
        trim_end_index(s) > 0 ==> !is_white(s[trim_end_index(s) - 1]),
        forall|i: int| trim_end_index(s) <= i < s.len() ==> is_white(#[trigger] s[i]),
    decreases s.len(),
{
    if s.len() > 0 && is_white(s.last()) {
        lemma_trim_end_bounds(s.drop_last());
        assert forall|i: int| trim_end_index(s) <= i < s.len() implies is_white(#[trigger] s[i]) by {
            if i < s.len() - 1 {
                assert(s[i] == s.drop_last()[i]);
            }
        }
    }
}

proof fn lemma_trim_start_bounds(s: Seq<char>)
    ensures
        0 <= trim_start_index(s) <= s.len(),
        trim_start_index(s) < s.len() ==> !is_white(s[trim_start_index(s)]),
        forall|i: int| 0 <= i < trim_start_index(s) ==> is_white(#[trigger] s[i]),
    decreases s.len(),
{
    if s.len() > 0 && is_white(s[0]) {
        lemma_trim_start_bounds(s.drop_first());
        assert forall|i: int| 0 <= i < trim_start_index(s) implies is_white(#[trigger] s[i]) by {
            if i > 0 {
                assert(s[i] == s.drop_first()[i - 1]);
            }
        }
    }
}

proof fn lemma_trim_end_char(s: Seq<char>, e: int)
    requires
        0 <= e <= s.len(),
        e > 0 ==> !is_white(s[e - 1]),
        forall|i: int| e <= i < s.len() ==> is_white(#[trigger] s[i]),
    ensures
        trim_end_index(s) == e,
    decreases s.len(),
{
    if s.len() > 0 && e < s.len() {
        assert(is_white(s.last()));
        lemma_trim_end_char(s.drop_last(), e);
    }
}

proof fn lemma_trim_start_char(s: Seq<char>, b: int)
    requires
        0 <= b <= s.len(),
        b < s.len() ==> !is_white(s[b]),
        forall|i: int| 0 <= i < b ==> is_white(#[trigger] s[i]),
    ensures
        trim_start_index(s) == b,
    decreases s.len(),
{
    if b > 0 {
        assert(is_white(s[0]));
        assert forall|i: int| 0 <= i < b - 1 implies is_white(#[trigger] s.drop_first()[i]) by {
            assert(s.drop_first()[i] == s[i + 1]);
        }
        if b - 1 < s.len() - 1 {
            assert(s.drop_first()[b - 1] == s[b]);
        }
        lemma_trim_start_char(s.drop_first(), b - 1);
    }
}

/// Trimming leaves no white space at either end.
pub proof fn lemma_trimmed_edges(s: Seq<char>)
    ensures
        trimmed(s).len() > 0 ==> !is_white(trimmed(s)[0]) && !is_white(trimmed(s).last()),
{
    lemma_trim_end_bounds(s);
    lemma_trim_start_bounds(s);
    let e = trim_end_index(s);
    let b = trim_start_index(s);
    if b < e {
        assert(trimmed(s)[0] == s[b]);
        assert(trimmed(s).last() == s[e - 1]);
    }
}

/// A text with no white space at either end is its own trimmed form.
pub proof fn lemma_trimmed_fixed(s: Seq<char>)
    requires
        s.len() > 0 ==> !is_white(s[0]) && !is_white(s.last()),
    ensures
        trimmed(s) == s,
{
    if s.len() > 0 {
        lemma_trim_end_char(s, s.len() as int);
        lemma_trim_start_char(s, 0);
    }
    assert(trimmed(s) =~= s);
}

/// The characters of `s` without leading and trailing white space.
pub fn trim_chars(s: &Vec<char>) -> (res: Vec<char>)
    ensures
        res@ == trimmed(s@),
{
    let mut e = s.len();
    while e > 0 && is_whitespace_char(s[e - 1])
        invariant
            e <= s@.len(),
            forall|i: int| e <= i < s@.len() ==> is_white(#[trigger] s@[i]),
        decreases e,
    {
        e -= 1;
    }
    proof {
        lemma_trim_end_char(s@, e as int);
    }
    let mut b: usize = 0;
    while b < s.len() && is_whitespace_char(s[b])
        invariant
            b <= s@.len(),
            forall|i: int| 0 <= i < b ==> is_white(#[trigger] s@[i]),
        decreases s.len() - b,
    {
        b += 1;
    }
    proof {
        lemma_trim_start_char(s@, b as int);
    }
    let start = if b <= e { b } else { e };
    let mut res: Vec<char> = Vec::new();
    let mut i = start;
    while i < e
        invariant
            start <= i <= e <= s@.len(),
            res@ == s@.subrange(start as int, i as int),
        decreases e - i,
    {
        res.push(s[i]);
        assert(s@.subrange(start as int, i + 1) == s@.subrange(start as int, i as int).push(s@[i as int]));
        i += 1;
    }
    res
}

/// Whether `s` ends with `suffix`.
pub open spec fn ends_with(s: Seq<char>, suffix: Seq<char>) -> bool {
    suffix.len() <= s.len() && s.subrange(s.len() - suffix.len(), s.len() as int) == suffix
}

/// Whether `s` starts with `prefix`.
pub open spec fn starts_with(s: Seq<char>, prefix: Seq<char>) -> bool {
    prefix.len() <= s.len() && s.subrange(0, prefix.len() as int) == prefix
}

/// Executable form of [`ends_with`].
pub fn chars_end_with(s: &Vec<char>, suffix: &Vec<char>) -> (res: bool)
    ensures
        res == ends_with(s@, suffix@),
{
    if suffix.len() > s.len() {
        return false;
    }
    let n = s.len();
    let off = n - suffix.len();
    let mut i: usize = 0;
    while i < suffix.len()
        invariant
            n == s@.len(),
            off + suffix@.len() == n,
            i <= suffix@.len(),
            forall|j: int| 0 <= j < i ==> s@[off + j] == suffix@[j],
        decreases suffix.len() - i,
    {
        if s[off + i] != suffix[i] {
            assert(s@.subrange(off as int, s@.len() as int)[i as int] == s@[off + i]);
            return false;
        }
        i += 1;
    }
    assert(s@.subrange(off as int, s@.len() as int) =~= suffix@);
    true
}

/// Executable form of [`starts_with`].
pub fn chars_start_with(s: &Vec<char>, prefix: &Vec<char>) -> (res: bool)
    ensures
        res == starts_with(s@, prefix@),
{
    if prefix.len() > s.len() {
        return false;
    }
    let mut i: usize = 0;
    while i < prefix.len()
        invariant
            prefix@.len() <= s@.len(),
            i <= prefix@.len(),
            forall|j: int| 0 <= j < i ==> s@[j] == prefix@[j],
        decreases prefix.len() - i,
    {
        if s[i] != prefix[i] {
            assert(s@.subrange(0, prefix@.len() as int)[i as int] == s@[i as int]);
            return false;
        }
        i += 1;
    }
    assert(s@.subrange(0, prefix@.len() as int) =~= prefix@);
    true
}

/// How many bytes the UTF-8 encoding of `c` takes.
pub open spec fn utf8_width(c: char) -> int {
    if (c as u32) <= 0x7F {
        1
    } else if (c as u32) <= 0x7FF {
        2
    } else if (c as u32) <= 0xFFFF {
        3
    } else {
        4
    }
}

/// How many leading characters of `s` fit, encoded as UTF-8, into `limit` bytes.
pub open spec fn utf8_fit(s: Seq<char>, limit: int) -> int
    decreases s.len(),
{
    if s.len() == 0 || utf8_width(s[0]) > limit {
        0
    } else {
        1 + utf8_fit(s.drop_first(), limit - utf8_width(s[0]))
    }
}

/// The width of a character is the length of its UTF-8 encoding.
pub proof fn lemma_utf8_width(c: char)
    ensures
        vstd::utf8::encode_scalar(c as u32).len() == utf8_width(c),
        1 <= utf8_width(c) <= 4,
{
    vstd::utf8::char_is_scalar(c);
}

/// The longest prefix of `s` that fits into `limit` bytes is all of `s` exactly when `s`
/// fits, and it does fit.
pub proof fn lemma_utf8_fit_all(s: Seq<char>, limit: int)
    requires
        limit >= 0,
    ensures
        0 <= utf8_fit(s, limit) <= s.len(),
        (utf8_fit(s, limit) == s.len()) == (vstd::utf8::encode_utf8(s).len() <= limit),
        vstd::utf8::encode_utf8(s.take(utf8_fit(s, limit))).len() <= limit,
    decreases s.len(),
{
    if s.len() == 0 {
        assert(s.take(0) =~= s);
    } else {
        lemma_utf8_width(s[0]);
        let w = utf8_width(s[0]);
        if w > limit {
            assert(s.take(0) =~= Seq::<char>::empty());
            assert(vstd::utf8::encode_utf8(s).len() == w + vstd::utf8::encode_utf8(s.drop_first()).len());
        } else {
            lemma_utf8_fit_all(s.drop_first(), limit - w);
            let k = utf8_fit(s, limit);
            assert(k == 1 + utf8_fit(s.drop_first(), limit - w));
            assert(s.take(k).drop_first() =~= s.drop_first().take(k - 1));
            assert(s.take(k)[0] == s[0]);
            assert(s.take(k).len() > 0);
        }
    }
}

/// The longest prefix of `text` whose UTF-8 encoding takes at most `limit` bytes: all of
/// `text` when it fits, else the text cut at the last character boundary within `limit`.
pub fn truncate_utf8(text: &str, limit: usize) -> (res: String)
    ensures
        res@ == text@.take(utf8_fit(text@, limit as int)),
{
    let chars = chars_of(text);
    let ghost s = chars@;
    let mut used: usize = 0;
    let mut i: usize = 0;
    let mut full = false;
    assert(s.skip(0) =~= s);
    while i < chars.len() && !full
        invariant
            s == chars@,
            i <= s.len(),
            used <= limit,
            utf8_fit(s, limit as int) == i + utf8_fit(s.skip(i as int), limit - used),
            full ==> i < s.len() && utf8_fit(s.skip(i as int), limit - used) == 0,
        decreases chars.len() - i, if full { 0int } else { 1int },
    {
        let c = chars[i];
        let w: usize = if (c as u32) <= 0x7F { 1 } else if (c as u32) <= 0x7FF { 2 } else if (c as u32) <= 0xFFFF { 3 } else { 4 };
        assert(w == utf8_width(c));
        assert(s.skip(i as int)[0] == c);
        assert(s.skip(i as int).drop_first() =~= s.skip(i + 1));
        if w > limit - used {
            full = true;
        } else {
            used = used + w;
            i += 1;
        }
    }
    proof {
        if i == s.len() {
            assert(s.skip(i as int).len() == 0);
        }
        assert(s.subrange(0, i as int) =~= s.take(i as int));
    }
    string_from_range(&chars, 0, i)
}

/// `c` in upper case when it is an ASCII letter (`char::to_ascii_uppercase`).
pub open spec fn ascii_upper(c: char) -> char {
    if 'a' <= c && c <= 'z' { (((c as u8) - 32) as u8) as char } else { c }
}

/// The characters of `s`, ASCII letters in upper case.
pub fn to_ascii_upper(s: &Vec<char>) -> (res: Vec<char>)
    ensures
        res@ == s@.map_values(|c: char| ascii_upper(c)),
{
    let mut res: Vec<char> = Vec::new();
    let mut i: usize = 0;
    while i < s.len()
        invariant
            i <= s@.len(),
            res@ == s@.take(i as int).map_values(|c: char| ascii_upper(c)),
        decreases s.len() - i,
    {
        let c = s[i];
        let u = if 'a' <= c && c <= 'z' { ((c as u8) - 32) as char } else { c };
        res.push(u);
        i += 1;
        assert(res@ =~= s@.take(i as int).map_values(|c: char| ascii_upper(c)));
    }
    assert(s@.take(s@.len() as int) =~= s@);
    res
}

/// `pat` occurs in `s` at position `i`.
pub open spec fn occurs_at(s: Seq<char>, pat: Seq<char>, i: int) -> bool {
    0 <= i && i + pat.len() <= s.len() && s.subrange(i, i + pat.len()) == pat
}

/// `pat` occurs somewhere in `s`.
pub open spec fn contains_text(s: Seq<char>, pat: Seq<char>) -> bool {
    exists|i: int| #[trigger] occurs_at(s, pat, i)
}

/// Whether `pat` occurs at position `i` of `s`.
fn matches_at(s: &Vec<char>, pat: &Vec<char>, i: usize) -> (res: bool)
    ensures
        res == occurs_at(s@, pat@, i as int),
{
    let n = s.len();
    if pat.len() > n || i > n - pat.len() {
        return false;
    }
    let mut j: usize = 0;
    while j < pat.len()
        invariant
            n == s@.len(),
            i + pat@.len() <= n,
            j <= pat@.len(),
            forall|k: int| 0 <= k < j ==> s@[i + k] == pat@[k],
        decreases pat.len() - j,
    {
        if s[i + j] != pat[j] {
            assert(s@.subrange(i as int, i + pat@.len())[j as int] != pat@[j as int]);
            return false;
        }
        j += 1;
    }
    assert(s@.subrange(i as int, i + pat@.len()) =~= pat@);
    true
}

/// Whether `pat` occurs in `s`.
pub fn contains_chars(s: &Vec<char>, pat: &Vec<char>) -> (res: bool)
    ensures
        res == contains_text(s@, pat@),
{
    let mut i: usize = 0;
    while i < s.len()
        invariant
            i <= s@.len(),
            forall|k: int| 0 <= k < i ==> !occurs_at(s@, pat@, k),
        decreases s.len() - i,
    {
        if matches_at(s, pat, i) {
            return true;
        }
        i += 1;
    }
    if matches_at(s, pat, i) {
        return true;
    }
    assert forall|k: int| !occurs_at(s@, pat@, k) by {
        if 0 <= k < i {
        }
    }
    false
}

/// `s` with every occurrence of the non-empty `pat`, scanned from the left without
/// overlaps, replaced by `rep` (`str::replace`).
pub open spec fn replace_all(s: Seq<char>, pat: Seq<char>, rep: Seq<char>) -> Seq<char>
    decreases s.len(),
{
    if pat.len() == 0 || s.len() == 0 {
        s
    } else if occurs_at(s, pat, 0) {
        rep + replace_all(s.skip(pat.len() as int), pat, rep)
    } else {
        seq![s[0]] + replace_all(s.drop_first(), pat, rep)
    }
}

proof fn lemma_replace_step(s: Seq<char>, pat: Seq<char>, rep: Seq<char>, i: int)
    requires
        pat.len() > 0,
        0 <= i < s.len(),
    ensures
        replace_all(s.skip(i), pat, rep) == (if occurs_at(s, pat, i) {
            rep + replace_all(s.skip(i + pat.len()), pat, rep)
        } else {
            seq![s[i]] + replace_all(s.skip(i + 1), pat, rep)
        }),
{
    let t = s.skip(i);
    assert(t.len() > 0);
    if occurs_at(s, pat, i) {
        assert(t.subrange(0, pat.len() as int) =~= s.subrange(i, i + pat.len()));
        assert(t.skip(pat.len() as int) =~= s.skip(i + pat.len()));
    } else {
        if occurs_at(t, pat, 0) {
            assert(t.subrange(0, pat.len() as int) =~= s.subrange(i, i + pat.len()));
        }
        assert(t.drop_first() =~= s.skip(i + 1));
        assert(t[0] == s[i]);
    }
}

/// `s` with every occurrence of the non-empty `pat` replaced by `rep`.
pub fn replace_text(s: &Vec<char>, pat: &Vec<char>, rep: &Vec<char>) -> (res: Vec<char>)
    requires
        pat@.len() > 0,
    ensures
        res@ == replace_all(s@, pat@, rep@),
{
    let mut out: Vec<char> = Vec::new();
    let mut i: usize = 0;
    assert(s@.skip(0) =~= s@);
    assert(out@ + replace_all(s@.skip(0), pat@, rep@) =~= replace_all(s@, pat@, rep@));
    while i < s.len()
        invariant
            pat@.len() > 0,
            i <= s@.len(),
            out@ + replace_all(s@.skip(i as int), pat@, rep@) == replace_all(s@, pat@, rep@),
        decreases s.len() - i,
    {
        proof {
            lemma_replace_step(s@, pat@, rep@, i as int);
        }
        if matches_at(s, pat, i) {
            let ghost before = out@;
            let mut k: usize = 0;
            while k < rep.len()
                invariant
                    k <= rep@.len(),
                    out@ == before + rep@.take(k as int),
                decreases rep.len() - k,
            {
                out.push(rep[k]);
                k += 1;
                assert(out@ =~= before + rep@.take(k as int));
            }
            assert(rep@.take(rep@.len() as int) =~= rep@);
            assert(out@ == before + rep@);
            assert(before + (rep@ + replace_all(s@.skip(i + pat@.len()), pat@, rep@)) =~= out@ + replace_all(s@.skip(i + pat@.len()), pat@, rep@));
            i = i + pat.len();
        } else {
            let ghost before = out@;
            out.push(s[i]);
            assert(before + (seq![s@[i as int]] + replace_all(s@.skip(i + 1), pat@, rep@)) =~= out@ + replace_all(s@.skip(i + 1), pat@, rep@));
            i = i + 1;
        }
    }
    assert(s@.skip(i as int).len() == 0);
    assert(out@ + replace_all(s@.skip(i as int), pat@, rep@) =~= out@);
    out
}

/// No character of `q` occurs in `r`.
pub open spec fn shares_no_char(q: Seq<char>, r: Seq<char>) -> bool {
    forall|k: int| 0 <= k < q.len() ==> !r.contains(#[trigger] q[k])
}

/// A prefix of a replacement's result that holds no character of `rep` was copied
/// unchanged from the input.
proof fn lemma_replace_prefix(t: Seq<char>, pat: Seq<char>, rep: Seq<char>, m: int)
    requires
        pat.len() > 0,
        rep.len() > 0,
        0 <= m <= replace_all(t, pat, rep).len(),
        forall|i: int| 0 <= i < m ==> !rep.contains(#[trigger] replace_all(t, pat, rep)[i]),
    ensures
        m <= t.len(),
        replace_all(t, pat, rep).subrange(0, m) == t.subrange(0, m),
    decreases t.len(),
{
    let r = replace_all(t, pat, rep);
    if m > 0 && t.len() > 0 {
        if occurs_at(t, pat, 0) {
            assert(r[0] == rep[0]);
            assert(rep.contains(rep[0]));
        } else {
            let r1 = replace_all(t.drop_first(), pat, rep);
            assert(r == seq![t[0]] + r1);
            assert forall|i: int| 0 <= i < m - 1 implies !rep.contains(#[trigger] r1[i]) by {
                assert(r1[i] == r[i + 1]);
            }
            lemma_replace_prefix(t.drop_first(), pat, rep, m - 1);
            assert(r.subrange(0, m) =~= seq![t[0]] + r1.subrange(0, m - 1));
            assert(t.subrange(0, m) =~= seq![t[0]] + t.drop_first().subrange(0, m - 1));
        }
    }
}

/// Replacing `pat` by a `rep` that shares no character with `q` creates no occurrence of
/// `q`, and leaves none of `pat` itself when `pat` shares no character with `rep`.
pub proof fn lemma_replace_creates_nothing(s: Seq<char>, pat: Seq<char>, rep: Seq<char>, q: Seq<char>)
    requires
        pat.len() > 0,
        rep.len() > 0,
        q.len() > 0,
        shares_no_char(q, rep),
    ensures
        contains_text(replace_all(s, pat, rep), q) ==> contains_text(s, q),
        q == pat ==> !contains_text(replace_all(s, pat, rep), q),
    decreases s.len(),
{
    let r = replace_all(s, pat, rep);
    if s.len() > 0 {
        if occurs_at(s, pat, 0) {
            let t = s.skip(pat.len() as int);
            let r1 = replace_all(t, pat, rep);
            lemma_replace_creates_nothing(t, pat, rep, q);
            assert(r == rep + r1);
            if contains_text(r, q) {
                let i = choose|i: int| #[trigger] occurs_at(r, q, i);
                if i < rep.len() {
                    assert(r.subrange(i, i + q.len())[0] == q[0]);
                    assert(r[i] == rep[i]);
                    assert(rep.contains(q[0]));
                } else {
                    assert(r1.subrange(i - rep.len(), i - rep.len() + q.len()) =~= r.subrange(i, i + q.len()));
                    assert(occurs_at(r1, q, i - rep.len()));
                    assert(q != pat);
                    let j = choose|j: int| #[trigger] occurs_at(t, q, j);
                    assert(s.subrange(j + pat.len(), j + pat.len() + q.len()) =~= t.subrange(j, j + q.len()));
                    assert(occurs_at(s, q, j + pat.len()));
                }
            }
        } else {
            let t = s.drop_first();
            let r1 = replace_all(t, pat, rep);
            lemma_replace_creates_nothing(t, pat, rep, q);
            assert(r == seq![s[0]] + r1);
            if contains_text(r, q) {
                let i = choose|i: int| #[trigger] occurs_at(r, q, i);
                if i >= 1 {
                    assert(r1.subrange(i - 1, i - 1 + q.len()) =~= r.subrange(i, i + q.len()));
                    assert(occurs_at(r1, q, i - 1));
                    assert(q != pat);
                    let j = choose|j: int| #[trigger] occurs_at(t, q, j);
                    assert(s.subrange(j + 1, j + 1 + q.len()) =~= t.subrange(j, j + q.len()));
                    assert(occurs_at(s, q, j + 1));
                } else {
                    let m = q.len() - 1;
                    assert forall|k: int| 0 <= k < m implies !rep.contains(#[trigger] r1[k]) by {
                        assert(r1[k] == r[k + 1]);
                        assert(r[k + 1] == r.subrange(0, q.len() as int)[k + 1]);
                        assert(q[k + 1] == r1[k]);
                    }
                    lemma_replace_prefix(t, pat, rep, m);
                    assert(s.subrange(0, q.len() as int) =~= seq![s[0]] + t.subrange(0, m));
                    assert(r.subrange(0, q.len() as int) =~= seq![s[0]] + r1.subrange(0, m));
                    assert(occurs_at(s, q, 0));
                }
            }
        }
    }
}

/// Replacing a pattern that does not occur changes nothing.
pub proof fn lemma_replace_absent(s: Seq<char>, pat: Seq<char>, rep: Seq<char>)
    requires
        pat.len() > 0,
        !contains_text(s, pat),
    ensures
        replace_all(s, pat, rep) == s,
    decreases s.len(),
{
    if s.len() > 0 {
        assert(!occurs_at(s, pat, 0));
        let t = s.drop_first();
        assert forall|j: int| !occurs_at(t, pat, j) by {
            if occurs_at(t, pat, j) {
                assert(s.subrange(j + 1, j + 1 + pat.len()) =~= t.subrange(j, j + pat.len()));
                assert(occurs_at(s, pat, j + 1));
            }
        }
        lemma_replace_absent(t, pat, rep);
        assert(seq![s[0]] + t =~= s);
    }
}

/// The decimal digits of `n`, most significant first, without leading zeros ("0" for 0).
pub open spec fn decimal(n: nat) -> Seq<char>
    decreases n,
{
    if n < 10 {
        seq![(48 + n) as char]
    } else {
        decimal(n / 10) + seq![(48 + n % 10) as char]
    }
}

/// The decimal text of `n`.
pub fn decimal_text(n: u64) -> (res: Vec<char>)
    ensures
        res@ == decimal(n as nat),
{
    let mut digits: Vec<char> = Vec::new();
    let mut m = n;
    // Digits are collected least significant first, then reversed.
    loop
        invariant_except_break
            decimal(n as nat) == decimal(m as nat) + digits@.reverse(),
        ensures
            decimal(n as nat) == digits@.reverse(),
        decreases m,
    {
        let d = m % 10;
        let c = ((48 + d) as u8) as char;
        if m < 10 {
            let ghost before = digits@;
            digits.push(c);
            assert(digits@.reverse() =~= seq![c] + before.reverse());
            break;
        }
        let ghost before = digits@;
        digits.push(c);
        proof {
            assert(decimal(m as nat) == decimal((m / 10) as nat) + seq![c]);
            assert(digits@.reverse() =~= seq![c] + before.reverse());
        }
        m = m / 10;
    }
    let mut res: Vec<char> = Vec::new();
    let mut i: usize = digits.len();
    while i > 0
        invariant
            i <= digits@.len(),
            res@ == digits@.reverse().take((digits@.len() - i) as int),
        decreases i,
    {
        i -= 1;
        res.push(digits[i]);
        assert(res@ =~= digits@.reverse().take((digits@.len() - i) as int));
    }
    assert(digits@.reverse().take(digits@.len() as int) =~= digits@.reverse());
    res
}

} // verus!
