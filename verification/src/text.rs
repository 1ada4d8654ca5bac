use vstd::prelude::*;

verus! {

broadcast use vstd::string::group_string_axioms;

// ---------------------------------------------------------------------------
// Characters
// ---------------------------------------------------------------------------

/// `char::is_whitespace`: the characters with the Unicode `White_Space`
/// property.
pub open spec fn is_ws(c: char) -> bool {
    let u = c as u32;
    ||| 0x9 <= u <= 0xd
    ||| u == 0x20
    ||| u == 0x85
    ||| u == 0xa0
    ||| u == 0x1680
    ||| 0x2000 <= u <= 0x200a
    ||| u == 0x2028
    ||| u == 0x2029
    ||| u == 0x202f
    ||| u == 0x205f
    ||| u == 0x3000
}

/// An ASCII decimal digit.
pub open spec fn is_digit(c: char) -> bool {
    '0' <= c <= '9'
}

pub open spec fn digit_value(c: char) -> int {
    (c as int) - ('0' as int)
}

pub open spec fn all_digits(s: Seq<char>) -> bool {
    forall|i: int| 0 <= i < s.len() ==> is_digit(#[trigger] s[i])
}

/// The value of a string of decimal digits, most significant digit first.
pub open spec fn decimal_value(s: Seq<char>) -> int
    decreases s.len(),
{
    if s.len() == 0 {
        0
    } else {
        10 * decimal_value(s.drop_last()) + digit_value(s.last())
    }
}

/// What `str::parse::<i32>` gives: an optional `+` or `-`, then one or more
/// ASCII digits and nothing else, whose value lies in the range of `i32`.
pub open spec fn spec_parse_i32(s: Seq<char>) -> Option<i32> {
    let signed = s.len() > 0 && (s[0] == '-' || s[0] == '+');
    let digits = if signed { s.drop_first() } else { s };
    let magnitude = decimal_value(digits);
    let value = if s.len() > 0 && s[0] == '-' { -magnitude } else { magnitude };
    if digits.len() == 0 || !all_digits(digits) {
        None
    } else if i32::MIN <= value <= i32::MAX {
        Some(value as i32)
    } else {
        None
    }
}

proof fn lemma_decimal_nonneg(s: Seq<char>)
    requires
        all_digits(s),
    ensures
        decimal_value(s) >= 0,
    decreases s.len(),
{
    if s.len() > 0 {
        lemma_decimal_nonneg(s.drop_last());
    }
}

/// Appending digits never makes a decimal value smaller.
proof fn lemma_decimal_prefix(s: Seq<char>, k: int)
    requires
        all_digits(s),
        0 <= k <= s.len(),
    ensures
        decimal_value(s.take(k)) <= decimal_value(s),
    decreases s.len(),
{
    if k == s.len() {
        assert(s.take(k) =~= s);
    } else {
        lemma_decimal_nonneg(s.drop_last());
        lemma_decimal_prefix(s.drop_last(), k);
        assert(s.drop_last().take(k) =~= s.take(k));
    }
}

/// The characters of `s`, in order.
pub fn chars_of(s: &str) -> (v: Vec<char>)
    ensures
        v@ == s@,
{
    let mut v: Vec<char> = Vec::new();
    for c in it: s.chars()
        invariant
            v@ == it.seq().take(it.index()),
            it.seq() == s@,
    {
        v.push(c);
        assert(v@ =~= it.seq().take(it.index() + 1));
    }
    assert(v@ =~= s@);
    v
}

/// `spec_parse_i32` of `v[lo..hi]`.
pub fn parse_i32_range(v: &Vec<char>, lo: usize, hi: usize) -> (r: Option<i32>)
    requires
        lo <= hi <= v.len(),
    ensures
        r == spec_parse_i32(v@.subrange(lo as int, hi as int)),
{
    let ghost s = v@.subrange(lo as int, hi as int);
    if lo == hi {
        return None;
    }
    let negative = v[lo] == '-';
    let start: usize = if v[lo] == '-' || v[lo] == '+' { lo + 1 } else { lo };
    let ghost digits = v@.subrange(start as int, hi as int);
    assert(digits =~= (if s.len() > 0 && (s[0] == '-' || s[0] == '+') { s.drop_first() } else { s }));
    if start == hi {
        return None;
    }
    let mut acc: i64 = 0;
    let mut j: usize = start;
    while j < hi
        invariant
            start <= j <= hi <= v.len(),
            lo < start <= hi || lo == start,
            digits == v@.subrange(start as int, hi as int),
            s == v@.subrange(lo as int, hi as int),
            s.len() > 0,
            digits == (if s[0] == '-' || s[0] == '+' { s.drop_first() } else { s }),
            all_digits(digits.take(j - start)),
            acc == decimal_value(digits.take(j - start)),
            0 <= acc <= 2147483648,
        decreases hi - j,
    {
        let c = v[j];
        if !('0' <= c && c <= '9') {
            assert(!all_digits(digits)) by {
                assert(digits[j - start] == c);
            }
            return None;
        }
        let d: i64 = (c as u32 - '0' as u32) as i64;
        assert(digits.take(j + 1 - start).drop_last() =~= digits.take(j - start));
        assert(all_digits(digits.take(j + 1 - start)));
        acc = acc * 10 + d;
        j = j + 1;
        if acc > 2147483648 {
            assert(spec_parse_i32(s) is None) by {
                if all_digits(digits) {
                    lemma_decimal_prefix(digits, j - start);
                }
            }
            return None;
        }
    }
    assert(digits.take(j - start) =~= digits);
    if negative {
        Some((0 - acc) as i32)
    } else if acc > 2147483647 {
        None
    } else {
        Some(acc as i32)
    }
}

/// `str::parse::<i32>`: `None` where the standard library reports an error.
pub fn parse_i32(s: &str) -> (r: Option<i32>)
    ensures
        r == spec_parse_i32(s@),
{
    let v = chars_of(s);
    let n = v.len();
    assert(v@.subrange(0, n as int) =~= v@);
    parse_i32_range(&v, 0, n)
}


// ---------------------------------------------------------------------------
// Whitespace and trimming
// ---------------------------------------------------------------------------

/// `char::is_whitespace`.
pub fn is_whitespace(c: char) -> (b: bool)
    ensures
        b == is_ws(c),
{
    let u = c as u32;
    (0x9 <= u && u <= 0xd) || u == 0x20 || u == 0x85 || u == 0xa0 || u == 0x1680 || (0x2000
        <= u && u <= 0x200a) || u == 0x2028 || u == 0x2029 || u == 0x202f || u == 0x205f || u
        == 0x3000
}

/// `str::trim_start`.
pub open spec fn trim_start(s: Seq<char>) -> Seq<char>
    decreases s.len(),
{
    if s.len() > 0 && is_ws(s[0]) {
        trim_start(s.drop_first())
    } else {
        s
    }
}

/// `str::trim_end`.
pub open spec fn trim_end(s: Seq<char>) -> Seq<char>
    decreases s.len(),
{
    if s.len() > 0 && is_ws(s.last()) {
        trim_end(s.drop_last())
    } else {
        s
    }
}

/// `str::trim`: leading and trailing whitespace removed.
pub open spec fn spec_trim(s: Seq<char>) -> Seq<char> {
    trim_end(trim_start(s))
}

/// The bounds of `trim(v[lo..hi])` inside `v`.
fn trim_range(v: &Vec<char>, lo: usize, hi: usize) -> (r: (usize, usize))
    requires
        lo <= hi <= v.len(),
    ensures
        lo <= r.0 <= r.1 <= hi,
        v@.subrange(r.0 as int, r.1 as int) == spec_trim(v@.subrange(lo as int, hi as int)),
{
    let mut a = lo;
    while a < hi && is_whitespace(v[a])
        invariant
            lo <= a <= hi <= v.len(),
            trim_start(v@.subrange(lo as int, hi as int)) == trim_start(
                v@.subrange(a as int, hi as int),
            ),
        decreases hi - a,
    {
        assert(v@.subrange(a as int, hi as int).drop_first() =~= v@.subrange(
            a + 1,
            hi as int,
        ));
        a = a + 1;
    }
    let mut b = hi;
    while b > a && is_whitespace(v[b - 1])
        invariant
            lo <= a <= b <= hi <= v.len(),
            trim_end(v@.subrange(a as int, hi as int)) == trim_end(v@.subrange(a as int, b as int)),
        decreases b - a,
    {
        assert(v@.subrange(a as int, b as int).drop_last() =~= v@.subrange(a as int, b - 1));
        b = b - 1;
    }
    (a, b)
}

// ---------------------------------------------------------------------------
// Lines, and the `PPid:` field of `/proc/{pid}/status`
// ---------------------------------------------------------------------------

/// The pieces of `s` between newline characters: `k` newlines give `k + 1`
/// pieces, the last of which is not followed by a newline.
pub open spec fn newline_pieces(s: Seq<char>) -> Seq<Seq<char>>
    decreases s.len(),
{
    if s.len() == 0 {
        seq![Seq::empty()]
    } else {
        let p = newline_pieces(s.drop_last());
        if s.last() == '\n' {
            p.push(Seq::empty())
        } else {
            p.update(p.len() - 1, p.last().push(s.last()))
        }
    }
}

/// A line that ended in `"\r\n"` loses its carriage return.
pub open spec fn strip_cr(line: Seq<char>) -> Seq<char> {
    if line.len() > 0 && line.last() == '\r' {
        line.drop_last()
    } else {
        line
    }
}

/// `str::lines`: lines end at `'\n'` or `"\r\n"`, the terminators are not
/// part of the lines, and the final line ending is optional (a final empty
/// piece is no line).
pub open spec fn spec_lines(s: Seq<char>) -> Seq<Seq<char>> {
    let p = newline_pieces(s);
    let k = p.len() - 1;
    let ended = strip_all(p.take(k));
    if p[k].len() > 0 {
        ended.push(p[k])
    } else {
        ended
    }
}

/// `strip_cr` applied to every line.
pub open spec fn strip_all(lines: Seq<Seq<char>>) -> Seq<Seq<char>>
    decreases lines.len(),
{
    if lines.len() == 0 {
        Seq::empty()
    } else {
        strip_all(lines.drop_last()).push(strip_cr(lines.last()))
    }
}

proof fn lemma_strip_all(lines: Seq<Seq<char>>)
    ensures
        strip_all(lines).len() == lines.len(),
        forall|j: int| 0 <= j < lines.len() ==> #[trigger] strip_all(lines)[j] == strip_cr(lines[j]),
    decreases lines.len(),
{
    if lines.len() > 0 {
        lemma_strip_all(lines.drop_last());
    }
}

pub open spec fn ppid_label() -> Seq<char> {
    seq!['P', 'P', 'i', 'd', ':']
}

/// The parent pid that one line of a status file states, if it is a
/// `PPid:` line whose (trimmed) value parses as an `i32`.
pub open spec fn line_ppid(line: Seq<char>) -> Option<i32> {
    if line.len() >= 5 && line.take(5) == ppid_label() {
        spec_parse_i32(spec_trim(line.skip(5)))
    } else {
        None
    }
}

/// The first line, in order, that states a parent pid.
pub open spec fn first_ppid(lines: Seq<Seq<char>>) -> Option<i32>
    decreases lines.len(),
{
    if lines.len() == 0 {
        None
    } else {
        match first_ppid(lines.drop_last()) {
            Some(p) => Some(p),
            None => line_ppid(lines.last()),
        }
    }
}

proof fn lemma_pieces_nonempty(s: Seq<char>)
    ensures
        newline_pieces(s).len() >= 1,
    decreases s.len(),
{
    if s.len() > 0 {
        lemma_pieces_nonempty(s.drop_last());
    }
}

/// Reading more text only extends the last piece or adds pieces: the pieces
/// that a prefix has already terminated stay as they are.
proof fn lemma_pieces_prefix(s: Seq<char>, m: int)
    requires
        0 <= m <= s.len(),
    ensures
        newline_pieces(s.take(m)).len() <= newline_pieces(s).len(),
        forall|j: int|
            0 <= j < newline_pieces(s.take(m)).len() - 1 ==> #[trigger] newline_pieces(s)[j]
                == newline_pieces(s.take(m))[j],
    decreases s.len() - m,
{
    lemma_pieces_nonempty(s);
    if m == s.len() {
        assert(s.take(m) =~= s);
    } else {
        lemma_pieces_prefix(s.drop_last(), m);
        assert(s.drop_last().take(m) =~= s.take(m));
        lemma_pieces_nonempty(s.drop_last());
    }
}

/// Once a prefix of the lines states a parent pid, later lines do not matter.
proof fn lemma_first_ppid_prefix(lines: Seq<Seq<char>>, pre: Seq<Seq<char>>)
    requires
        pre.len() <= lines.len(),
        lines.take(pre.len() as int) == pre,
        first_ppid(pre) is Some,
    ensures
        first_ppid(lines) == first_ppid(pre),
    decreases lines.len(),
{
    if lines.len() == pre.len() {
        assert(lines =~= pre);
    } else {
        assert(lines.drop_last().take(pre.len() as int) =~= pre);
        lemma_first_ppid_prefix(lines.drop_last(), pre);
    }
}

fn line_ppid_range(v: &Vec<char>, lo: usize, hi: usize) -> (r: Option<i32>)
    requires
        lo <= hi <= v.len(),
    ensures
        r == line_ppid(v@.subrange(lo as int, hi as int)),
{
    let ghost line = v@.subrange(lo as int, hi as int);
    if hi - lo < 5 {
        return None;
    }
    if !(v[lo] == 'P' && v[lo + 1] == 'P' && v[lo + 2] == 'i' && v[lo + 3] == 'd' && v[lo + 4]
        == ':') {
        assert(line.take(5) != ppid_label()) by {
            if line.take(5) == ppid_label() {
                assert(line.take(5)[0] == 'P');
                assert(line.take(5)[1] == 'P');
                assert(line.take(5)[2] == 'i');
                assert(line.take(5)[3] == 'd');
                assert(line.take(5)[4] == ':');
            }
        }
        return None;
    }
    assert(line.take(5) =~= ppid_label());
    assert(line.skip(5) =~= v@.subrange(lo + 5, hi as int));
    let (a, b) = trim_range(v, lo + 5, hi);
    parse_i32_range(v, a, b)
}

/// The parent pid that the text of a `/proc/{pid}/status` file reports: the
/// value of its first `PPid:` line whose trimmed value parses as an `i32`.
pub fn parent_pid_from_status(status: &str) -> (r: Option<i32>)
    ensures
        r == first_ppid(spec_lines(status@)),
{
    let v = chars_of(status);
    let n = v.len();
    let mut start: usize = 0;
    let mut i: usize = 0;
    let ghost mut done: Seq<Seq<char>> = Seq::empty();
    assert(v@.take(0) =~= Seq::<char>::empty());
    assert(v@.subrange(0, 0) =~= Seq::<char>::empty());
    while i < n
        invariant
            n == v.len(),
            v@ == status@,
            0 <= start <= i <= n,
            newline_pieces(v@.take(i as int)) == done.push(v@.subrange(start as int, i as int)),
            first_ppid(strip_all(done)) is None,
        decreases n - i,
    {
        let ghost s1 = v@.take(i + 1);
        assert(s1.drop_last() =~= v@.take(i as int));
        if v[i] == '\n' {
            let ghost piece = v@.subrange(start as int, i as int);
            let end = if i > start && v[i - 1] == '\r' { i - 1 } else { i };
            assert(v@.subrange(start as int, end as int) =~= strip_cr(piece));
            let found = line_ppid_range(&v, start, end);
            proof {
                let old_done = done;
                assert(done.push(piece).drop_last() =~= done);
                assert(strip_all(done.push(piece)) == strip_all(old_done).push(strip_cr(piece)));
                assert(strip_all(old_done).push(strip_cr(piece)).drop_last() =~= strip_all(old_done));
                done = done.push(piece);
                assert(first_ppid(strip_all(done)) == line_ppid(strip_cr(piece)));
            }
            if found.is_some() {
                proof {
                    lemma_pieces_prefix(v@, i + 1);
                    let lines = spec_lines(v@);
                    let p = newline_pieces(v@);
                    lemma_strip_all(p.take(p.len() - 1));
                    lemma_strip_all(done);
                    assert(lines.take(done.len() as int) =~= strip_all(done));
                    lemma_first_ppid_prefix(lines, strip_all(done));
                }
                return found;
            }
            start = i + 1;
            assert(v@.subrange(start as int, start as int) =~= Seq::<char>::empty());
        } else {
            assert(v@.subrange(start as int, i + 1) =~= v@.subrange(start as int, i as int).push(
                v[i as int],
            ));
        }
        i = i + 1;
    }
    assert(v@.take(n as int) =~= v@);
    let ghost p = newline_pieces(v@);
    assert(p.take(p.len() - 1) =~= done);
    assert(p[p.len() - 1] == v@.subrange(start as int, n as int));
    let ghost ended = strip_all(done);
    assert(ended.push(v@.subrange(start as int, n as int)).drop_last() =~= ended);
    if start < n {
        line_ppid_range(&v, start, n)
    } else {
        None
    }
}


// ---------------------------------------------------------------------------
// Runs of non-separators, and the pid list of a `children` file
// ---------------------------------------------------------------------------

/// The maximal runs of elements that are not separators, in order: what
/// splitting at every separator gives once the empty pieces are dropped.
pub open spec fn runs<T>(s: Seq<T>, sep: spec_fn(T) -> bool) -> Seq<Seq<T>>
    decreases s.len(),
{
    if s.len() == 0 {
        Seq::empty()
    } else {
        let r = runs(s.drop_last(), sep);
        let c = s.last();
        if sep(c) {
            r
        } else if s.len() >= 2 && !sep(s[s.len() - 2]) {
            r.update(r.len() - 1, r.last().push(c))
        } else {
            r.push(seq![c])
        }
    }
}

/// `str::split_whitespace`.
pub open spec fn words(s: Seq<char>) -> Seq<Seq<char>> {
    runs(s, |c: char| is_ws(c))
}

/// The words that parse as an `i32`, parsed, in order.
pub open spec fn parsed_pids(words: Seq<Seq<char>>) -> Seq<i32>
    decreases words.len(),
{
    if words.len() == 0 {
        Seq::empty()
    } else {
        let r = parsed_pids(words.drop_last());
        match spec_parse_i32(words.last()) {
            Some(p) => r.push(p),
            None => r,
        }
    }
}

/// The pids listed in the text of a `/proc/{pid}/task/{tid}/children` file:
/// each whitespace-separated word that parses as an `i32`, in order.
pub fn parse_pid_list(content: &str) -> (r: Vec<i32>)
    ensures
        r@ == parsed_pids(words(content@)),
{
    let v = chars_of(content);
    let n = v.len();
    let mut out: Vec<i32> = Vec::new();
    let mut word_start: usize = 0;
    let mut in_word = false;
    let mut i: usize = 0;
    let ghost mut done: Seq<Seq<char>> = Seq::empty();
    assert(v@.take(0) =~= Seq::<char>::empty());
    while i < n
        invariant
            n == v.len(),
            v@ == content@,
            0 <= word_start <= i <= n,
            in_word ==> word_start < i,
            in_word <==> (i > 0 && !is_ws(v@[i - 1])),
            words(v@.take(i as int)) == (if in_word {
                done.push(v@.subrange(word_start as int, i as int))
            } else {
                done
            }),
            out@ == parsed_pids(done),
        decreases n - i,
    {
        let ghost s1 = v@.take(i + 1);
        assert(s1.drop_last() =~= v@.take(i as int));
        assert(s1.last() == v@[i as int]);
        if is_whitespace(v[i]) {
            if in_word {
                let ghost w = v@.subrange(word_start as int, i as int);
                let parsed = parse_i32_range(&v, word_start, i);
                proof {
                    assert(done.push(w).drop_last() =~= done);
                    done = done.push(w);
                }
                if let Some(pid) = parsed {
                    out.push(pid);
                }
                in_word = false;
            }
        } else {
            if in_word {
                assert(s1[s1.len() - 2] == v@[i - 1]);
                assert(v@.subrange(word_start as int, i + 1) =~= v@.subrange(
                    word_start as int,
                    i as int,
                ).push(v@[i as int]));
            } else {
                assert(i > 0 ==> s1[s1.len() - 2] == v@[i - 1]);
                assert(v@.subrange(i as int, i + 1) =~= seq![v@[i as int]]);
                word_start = i;
                in_word = true;
            }
        }
        i = i + 1;
    }
    assert(v@.take(n as int) =~= v@);
    if in_word {
        let ghost w = v@.subrange(word_start as int, n as int);
        let parsed = parse_i32_range(&v, word_start, n);
        proof {
            assert(done.push(w).drop_last() =~= done);
        }
        if let Some(pid) = parsed {
            out.push(pid);
        }
    }
    out
}


/// Every run is non-empty and holds no separator; a sequence that does not
/// end in a separator ends in its last run.
pub proof fn lemma_runs_separated<T>(s: Seq<T>, sep: spec_fn(T) -> bool)
    ensures
        forall|k: int|
            0 <= k < runs(s, sep).len() ==> (#[trigger] runs(s, sep)[k]).len() > 0 && forall|j: int|
                0 <= j < runs(s, sep)[k].len() ==> !sep(#[trigger] runs(s, sep)[k][j]),
        s.len() > 0 && !sep(s.last()) ==> runs(s, sep).len() > 0,
    decreases s.len(),
{
    if s.len() > 0 {
        lemma_runs_separated(s.drop_last(), sep);
        let r = runs(s.drop_last(), sep);
        let c = s.last();
        if !sep(c) {
            if s.len() >= 2 && !sep(s[s.len() - 2]) {
                assert(s.drop_last().last() == s[s.len() - 2]);
                let r2 = r.update(r.len() - 1, r.last().push(c));
                assert forall|k: int| 0 <= k < r2.len() implies (#[trigger] r2[k]).len() > 0
                    && forall|j: int| 0 <= j < r2[k].len() ==> !sep(#[trigger] r2[k][j]) by {
                    if k == r.len() - 1 {
                        assert forall|j: int| 0 <= j < r2[k].len() implies !sep(#[trigger] r2[k][j]) by {
                            if j < r[k].len() {
                                assert(r2[k][j] == r[k][j]);
                            }
                        }
                    }
                }
            } else {
                let r2 = r.push(seq![c]);
                assert forall|k: int| 0 <= k < r2.len() implies (#[trigger] r2[k]).len() > 0
                    && forall|j: int| 0 <= j < r2[k].len() ==> !sep(#[trigger] r2[k][j]) by {
                    if k < r.len() {
                        assert(r2[k] == r[k]);
                    }
                }
            }
        }
    }
}

/// No word of a text is empty or holds whitespace.
pub proof fn lemma_words_hold_no_whitespace(s: Seq<char>)
    ensures
        forall|k: int|
            0 <= k < words(s).len() ==> (#[trigger] words(s)[k]).len() > 0 && forall|j: int|
                0 <= j < words(s)[k].len() ==> !is_ws(#[trigger] words(s)[k][j]),
{
    lemma_runs_separated(s, |c: char| is_ws(c));
}


/// The decimal digit for `d < 10`.
pub open spec fn digit_char(d: nat) -> char {
    if d == 0 {
        '0'
    } else if d == 1 {
        '1'
    } else if d == 2 {
        '2'
    } else if d == 3 {
        '3'
    } else if d == 4 {
        '4'
    } else if d == 5 {
        '5'
    } else if d == 6 {
        '6'
    } else if d == 7 {
        '7'
    } else if d == 8 {
        '8'
    } else {
        '9'
    }
}

/// The decimal text of a natural number, without leading zeros.
pub open spec fn render_nat(n: nat) -> Seq<char>
    decreases n,
{
    if n < 10 {
        seq![digit_char(n)]
    } else {
        render_nat(n / 10).push(digit_char(n % 10))
    }
}

/// The decimal text of an `i32`, as `Display` writes it and as the kernel
/// writes pids.
pub open spec fn render_i32(v: i32) -> Seq<char> {
    if v < 0 {
        seq!['-'] + render_nat((-v) as nat)
    } else {
        render_nat(v as nat)
    }
}

proof fn lemma_digit_char(d: nat)
    requires
        d < 10,
    ensures
        is_digit(digit_char(d)),
        digit_value(digit_char(d)) == d,
{
}

proof fn lemma_render_nat(n: nat)
    ensures
        render_nat(n).len() > 0,
        all_digits(render_nat(n)),
        decimal_value(render_nat(n)) == n,
    decreases n,
{
    if n < 10 {
        lemma_digit_char(n);
        let r = render_nat(n);
        assert(r.drop_last() =~= Seq::<char>::empty());
        assert(decimal_value(r.drop_last()) == 0);
        assert(decimal_value(r) == 10 * decimal_value(r.drop_last()) + digit_value(r.last()));
    } else {
        lemma_digit_char(n % 10);
        assert(n == 10 * (n / 10) + n % 10);
        lemma_render_nat(n / 10);
        let r = render_nat(n);
        assert(r.drop_last() =~= render_nat(n / 10));
        assert(r.last() == digit_char(n % 10));
        assert(decimal_value(r) == 10 * decimal_value(r.drop_last()) + digit_value(r.last()));
        assert forall|i: int| 0 <= i < r.len() implies is_digit(#[trigger] r[i]) by {
            if i < r.len() - 1 {
                assert(r[i] == render_nat(n / 10)[i]);
            }
        }
    }
}

/// Reading back the decimal text of any `i32` gives that `i32`: the parser
/// recovers every pid that the system writes.
pub proof fn lemma_parse_rendered_i32(v: i32)
    ensures
        spec_parse_i32(render_i32(v)) == Some(v),
{
    if v < 0 {
        let m = (-v) as nat;
        lemma_render_nat(m);
        let s = render_i32(v);
        assert(s.drop_first() =~= render_nat(m));
        assert(s[0] == '-');
    } else {
        lemma_render_nat(v as nat);
        let s = render_i32(v);
        assert(s[0] != '-' && s[0] != '+') by {
            assert(is_digit(s[0]));
        }
    }
}


/// Appending one run to a sequence that is empty or ends in a separator adds
/// exactly that run.
pub proof fn lemma_runs_append_run<T>(s: Seq<T>, p: Seq<T>, sep: spec_fn(T) -> bool)
    requires
        s.len() == 0 || sep(s.last()),
        p.len() > 0,
        forall|j: int| 0 <= j < p.len() ==> !sep(#[trigger] p[j]),
    ensures
        runs(s + p, sep) == runs(s, sep).push(p),
    decreases p.len(),
{
    let x = s + p;
    if p.len() == 1 {
        assert(x.drop_last() =~= s);
        assert(seq![p[0]] =~= p);
    } else {
        let q = p.drop_last();
        assert(x.drop_last() =~= s + q);
        lemma_runs_append_run(s, q, sep);
        assert(x[x.len() - 2] == p[p.len() - 2]);
        assert(q.push(p.last()) =~= p);
        let r = runs(s, sep).push(q);
        assert(r.update(r.len() - 1, r.last().push(p.last())) =~= runs(s, sep).push(p));
    }
}

/// A trailing separator adds no run.
pub proof fn lemma_runs_push_separator<T>(s: Seq<T>, c: T, sep: spec_fn(T) -> bool)
    requires
        sep(c),
    ensures
        runs(s.push(c), sep) == runs(s, sep),
{
    assert(s.push(c).drop_last() =~= s);
}

} // verus!
