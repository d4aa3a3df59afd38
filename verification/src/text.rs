//! Character-level text primitives: whitespace, line splitting, joining.

use vstd::prelude::*;

verus! {

/// The Unicode `White_Space` property, which is what `char::is_whitespace` tests.
pub open spec fn is_ws(c: char) -> bool {
    let v = c as u32;
    ||| 0x09 <= v <= 0x0D
    ||| v == 0x20
    ||| v == 0x85
    ||| v == 0xA0
    ||| v == 0x1680
    ||| 0x2000 <= v <= 0x200A
    ||| v == 0x2028
    ||| v == 0x2029
    ||| v == 0x202F
    ||| v == 0x205F
    ||| v == 0x3000
}

/// Whether `c` is a Unicode whitespace character.
pub fn is_whitespace(c: char) -> (r: bool)
    ensures
        r == is_ws(c),
{
    let v: u32 = c as u32;
    (0x09 <= v && v <= 0x0D) || v == 0x20 || v == 0x85 || v == 0xA0 || v == 0x1680 || (0x2000
        <= v && v <= 0x200A) || v == 0x2028 || v == 0x2029 || v == 0x202F || v == 0x205F || v
        == 0x3000
}

} // verus!

verus! {

/// Appends `c` to `s`, as `String::push` does.
#[verifier::external_body]
fn push_char(s: &mut String, c: char)
    ensures
        final(s)@ == old(s)@.push(c),
{
    s.push(c);
}

/// The characters of `s`, in order.
pub fn chars_of(s: &str) -> (r: Vec<char>)
    ensures
        r@ == s@,
{
    let mut r: Vec<char> = Vec::new();
    for c in it: s.chars()
        invariant
            r@ == it.seq().take(it.index() as int),
    {
        r.push(c);
    }
    r
}

} // verus!

verus! {

/// A text made of whitespace only (the empty text included).
pub open spec fn is_blank(s: Seq<char>) -> bool {
    forall|i: int| 0 <= i < s.len() ==> is_ws(#[trigger] s[i])
}

/// The pieces of `s` between occurrences of `sep`, as `str::split` with a char gives them:
/// one more piece than there are separators.
pub open spec fn split_on(s: Seq<char>, sep: char) -> Seq<Seq<char>>
    decreases s.len(),
{
    if s.len() == 0 {
        seq![Seq::empty()]
    } else {
        let rest = split_on(s.drop_last(), sep);
        if s.last() == sep {
            rest.push(Seq::empty())
        } else {
            rest.update(rest.len() - 1, rest.last().push(s.last()))
        }
    }
}

/// `p` without one trailing carriage return.
pub open spec fn strip_cr(p: Seq<char>) -> Seq<char> {
    if p.len() > 0 && p.last() == '\r' {
        p.drop_last()
    } else {
        p
    }
}

/// The lines of `s` as `str::lines` yields them: split at `\n`, a `\r` right before the `\n`
/// dropped, and no final empty line after a trailing line ending.
pub open spec fn text_lines(s: Seq<char>) -> Seq<Seq<char>> {
    let p = split_on(s, '\n');
    let n = if p.last().len() == 0 {
        p.len() - 1
    } else {
        p.len() as int
    };
    Seq::new(n as nat, |k: int| if k < p.len() - 1 { strip_cr(p[k]) } else { p[k] })
}

/// `parts` with `sep` between each two neighbours.
pub open spec fn join(parts: Seq<Seq<char>>, sep: Seq<char>) -> Seq<char>
    decreases parts.len(),
{
    if parts.len() == 0 {
        Seq::empty()
    } else if parts.len() == 1 {
        parts[0]
    } else {
        join(parts.drop_last(), sep) + sep + parts.last()
    }
}

/// The character sequences held by a list of strings.
pub open spec fn views(v: Seq<String>) -> Seq<Seq<char>> {
    v.map_values(|s: String| s@)
}

pub proof fn lemma_split_on_nonempty(s: Seq<char>, sep: char)
    ensures
        split_on(s, sep).len() >= 1,
    decreases s.len(),
{
    if s.len() > 0 {
        lemma_split_on_nonempty(s.drop_last(), sep);
    }
}

/// The string made of `chars[a..b]`.
pub fn string_of_range(chars: &Vec<char>, a: usize, b: usize) -> (r: String)
    requires
        a <= b <= chars.len(),
    ensures
        r@ == chars@.subrange(a as int, b as int),
{
    let mut r = String::new();
    let mut i = a;
    while i < b
        invariant
            a <= i <= b <= chars.len(),
            r@ == chars@.subrange(a as int, i as int),
        decreases b - i,
    {
        push_char(&mut r, chars[i]);
        i = i + 1;
        assert(r@ =~= chars@.subrange(a as int, i as int));
    }
    r
}

/// The character ranges of the lines of `chars`, as `str::lines` would split them.
fn line_ranges(chars: &Vec<char>) -> (r: Vec<(usize, usize)>)
    ensures
        r.len() == text_lines(chars@).len(),
        forall|k: int|
            0 <= k < r.len() ==> {
                &&& (#[trigger] r[k]).0 <= r[k].1 <= chars.len()
                &&& chars@.subrange(r[k].0 as int, r[k].1 as int) == text_lines(chars@)[k]
            },
{
    let mut r: Vec<(usize, usize)> = Vec::new();
    let mut start: usize = 0;
    let mut i: usize = 0;
    let n = chars.len();
    proof {
        assert(chars@.take(0) =~= Seq::<char>::empty());
    }
    while i < n
        invariant
            n == chars.len(),
            0 <= start <= i <= n,
            split_on(chars@.take(i as int), '\n').len() == r.len() + 1,
            split_on(chars@.take(i as int), '\n').last() == chars@.subrange(
                start as int,
                i as int,
            ),
            forall|k: int|
                0 <= k < r.len() ==> {
                    &&& (#[trigger] r[k]).0 <= r[k].1 <= chars.len()
                    &&& chars@.subrange(r[k].0 as int, r[k].1 as int) == strip_cr(
                        split_on(chars@.take(i as int), '\n')[k],
                    )
                },
        decreases n - i,
    {
        let ghost prev = split_on(chars@.take(i as int), '\n');
        assert(chars@.take(i + 1).drop_last() =~= chars@.take(i as int));
        assert(chars@.take(i + 1).last() == chars@[i as int]);
        if chars[i] == '\n' {
            let end = if i > start && chars[i - 1] == '\r' {
                i - 1
            } else {
                i
            };
            assert(chars@.subrange(start as int, end as int) =~= strip_cr(
                chars@.subrange(start as int, i as int),
            ));
            r.push((start, end));
            start = i + 1;
        } else {
            assert(chars@.subrange(start as int, i + 1) =~= chars@.subrange(
                start as int,
                i as int,
            ).push(chars@[i as int]));
        }
        i = i + 1;
    }
    assert(chars@.take(n as int) =~= chars@);
    if start < n {
        assert(chars@.subrange(start as int, n as int).len() > 0);
        r.push((start, n));
    }
    proof {
        let p = split_on(chars@, '\n');
        assert forall|k: int| 0 <= k < r.len() implies {
            &&& (#[trigger] r[k]).0 <= r[k].1 <= chars.len()
            &&& chars@.subrange(r[k].0 as int, r[k].1 as int) == text_lines(chars@)[k]
        } by {}
    }
    r
}

/// The lines of `text`, as `str::lines` yields them.
pub fn lines_of(text: &str) -> (r: Vec<String>)
    ensures
        views(r@) == text_lines(text@),
{
    let chars = chars_of(text);
    let ranges = line_ranges(&chars);
    let mut r: Vec<String> = Vec::new();
    let mut k: usize = 0;
    while k < ranges.len()
        invariant
            chars@ == text@,
            ranges.len() == text_lines(chars@).len(),
            forall|j: int|
                0 <= j < ranges.len() ==> {
                    &&& (#[trigger] ranges[j]).0 <= ranges[j].1 <= chars.len()
                    &&& chars@.subrange(ranges[j].0 as int, ranges[j].1 as int) == text_lines(
                        chars@,
                    )[j]
                },
            k <= ranges.len(),
            r.len() == k,
            forall|j: int| 0 <= j < k ==> (#[trigger] r[j])@ == text_lines(chars@)[j],
        decreases ranges.len() - k,
    {
        let (a, b) = ranges[k];
        let line = string_of_range(&chars, a, b);
        r.push(line);
        k = k + 1;
    }
    assert(views(r@) =~= text_lines(text@));
    r
}

} // verus!

verus! {

/// `parts` joined with `sep` between each two neighbours, as `[String]::join` does.
pub fn join_strings(parts: &Vec<String>, sep: &str) -> (r: String)
    ensures
        r@ == join(views(parts@), sep@),
{
    let mut r = String::new();
    let ghost vs = views(parts@);
    let mut i: usize = 0;
    while i < parts.len()
        invariant
            vs == views(parts@),
            i <= parts.len(),
            r@ == join(vs.take(i as int), sep@),
        decreases parts.len() - i,
    {
        if i != 0 {
            r.append(sep);
        }
        r.append(parts[i].as_str());
        assert(vs.take(i + 1).drop_last() =~= vs.take(i as int));
        i = i + 1;
    }
    assert(vs.take(parts.len() as int) =~= vs);
    r
}

/// The text of an editor holding `lines`: the lines joined with `\n`.
pub fn join_lines(lines: &Vec<String>) -> (r: String)
    ensures
        r@ == join(views(lines@), seq!['\n']),
{
    proof {
        reveal_strlit("\n");
        assert("\n"@ =~= seq!['\n']);
    }
    join_strings(lines, "\n")
}

/// `s` ending in a line ending: `s` itself when it ends with `\n`, else `s` and a `\n`.
pub open spec fn ending_in_newline(s: Seq<char>) -> Seq<char> {
    if s.len() > 0 && s.last() == '\n' {
        s
    } else {
        s.push('\n')
    }
}

/// `text` as it is written to a file: with a `\n` appended unless it already ends with one.
pub fn with_trailing_newline(text: &str) -> (r: String)
    ensures
        r@ == ending_in_newline(text@),
{
    let n = text.unicode_len();
    let mut r = text.to_owned();
    if n == 0 || text.get_char(n - 1) != '\n' {
        push_char(&mut r, '\n');
    }
    r
}

/// How many characters equal to `c` stand at the start of `s`.
pub open spec fn run_len(s: Seq<char>, c: char) -> nat
    decreases s.len(),
{
    if s.len() > 0 && s[0] == c {
        1 + run_len(s.drop_first(), c)
    } else {
        0
    }
}

/// How many whitespace characters stand at the start of `s`.
pub open spec fn leading_ws(s: Seq<char>) -> nat
    decreases s.len(),
{
    if s.len() > 0 && is_ws(s[0]) {
        1 + leading_ws(s.drop_first())
    } else {
        0
    }
}

/// `s` without its leading whitespace, as `str::trim_start` gives it.
pub open spec fn trim_start(s: Seq<char>) -> Seq<char> {
    s.skip(leading_ws(s) as int)
}

pub proof fn lemma_leading_ws_bound(s: Seq<char>)
    ensures
        leading_ws(s) <= s.len(),
        forall|i: int| 0 <= i < leading_ws(s) ==> is_ws(#[trigger] s[i]),
        leading_ws(s) < s.len() ==> !is_ws(s[leading_ws(s) as int]),
    decreases s.len(),
{
    if s.len() > 0 && is_ws(s[0]) {
        lemma_leading_ws_bound(s.drop_first());
        assert forall|i: int| 0 <= i < leading_ws(s) implies is_ws(#[trigger] s[i]) by {
            if i > 0 {
                assert(s[i] == s.drop_first()[i - 1]);
            }
        }
    }
}

pub proof fn lemma_leading_ws_skip(s: Seq<char>, j: int)
    requires
        0 <= j <= s.len(),
        forall|i: int| 0 <= i < j ==> is_ws(#[trigger] s[i]),
    ensures
        leading_ws(s) == j + leading_ws(s.skip(j)),
    decreases j,
{
    if j > 0 {
        assert(s.drop_first().skip(j - 1) =~= s.skip(j));
        assert forall|i: int| 0 <= i < j - 1 implies is_ws(#[trigger] s.drop_first()[i]) by {
            assert(s.drop_first()[i] == s[i + 1]);
        }
        assert(is_ws(s[0]));
        lemma_leading_ws_skip(s.drop_first(), j - 1);
    } else {
        assert(s.skip(0) =~= s);
    }
}

proof fn lemma_run_len_skip(s: Seq<char>, c: char, j: int)
    requires
        0 <= j <= s.len(),
        forall|i: int| 0 <= i < j ==> #[trigger] s[i] == c,
    ensures
        run_len(s, c) == j + run_len(s.skip(j), c),
    decreases j,
{
    if j > 0 {
        assert(s.drop_first().skip(j - 1) =~= s.skip(j));
        assert forall|i: int| 0 <= i < j - 1 implies #[trigger] s.drop_first()[i] == c by {
            assert(s.drop_first()[i] == s[i + 1]);
        }
        assert(s[0] == c);
        lemma_run_len_skip(s.drop_first(), c, j - 1);
    } else {
        assert(s.skip(0) =~= s);
    }
}

/// The index of the first non-whitespace character of `chars`, or its length.
pub fn leading_ws_count(chars: &Vec<char>) -> (r: usize)
    ensures
        r == leading_ws(chars@),
{
    let mut j: usize = 0;
    while j < chars.len() && is_whitespace(chars[j])
        invariant
            j <= chars.len(),
            forall|i: int| 0 <= i < j ==> is_ws(#[trigger] chars@[i]),
        decreases chars.len() - j,
    {
        j = j + 1;
    }
    proof {
        lemma_leading_ws_skip(chars@, j as int);
        if j < chars.len() {
            assert(chars@.skip(j as int)[0] == chars@[j as int]);
        }
    }
    j
}

/// How many characters equal to `c` stand in `chars` from index `from` on.
pub fn run_len_from(chars: &Vec<char>, from: usize, c: char) -> (r: usize)
    requires
        from <= chars.len(),
    ensures
        r == run_len(chars@.skip(from as int), c),
        from + r <= chars.len(),
{
    let ghost s = chars@.skip(from as int);
    let mut j: usize = from;
    while j < chars.len() && chars[j] == c
        invariant
            from <= j <= chars.len(),
            s == chars@.skip(from as int),
            forall|i: int| 0 <= i < j - from ==> #[trigger] s[i] == c,
        decreases chars.len() - j,
    {
        j = j + 1;
    }
    proof {
        lemma_run_len_skip(s, c, j - from);
        assert(s.skip(j - from) =~= chars@.skip(j as int));
        if j < chars.len() {
            assert(chars@.skip(j as int)[0] == chars@[j as int]);
        }
    }
    j - from
}

/// Whether `chars` holds whitespace only.
pub fn all_whitespace(chars: &Vec<char>) -> (r: bool)
    ensures
        r == is_blank(chars@),
{
    let mut i: usize = 0;
    while i < chars.len()
        invariant
            i <= chars.len(),
            forall|k: int| 0 <= k < i ==> is_ws(#[trigger] chars@[k]),
        decreases chars.len() - i,
    {
        if !is_whitespace(chars[i]) {
            return false;
        }
        i = i + 1;
    }
    true
}

} // verus!

verus! {

pub proof fn lemma_blank_concat(a: Seq<char>, b: Seq<char>)
    ensures
        is_blank(a + b) <==> (is_blank(a) && is_blank(b)),
{
    if is_blank(a + b) {
        assert forall|i: int| 0 <= i < a.len() implies is_ws(#[trigger] a[i]) by {
            assert((a + b)[i] == a[i]);
        }
        assert forall|i: int| 0 <= i < b.len() implies is_ws(#[trigger] b[i]) by {
            assert((a + b)[a.len() + i] == b[i]);
        }
    }
    if is_blank(a) && is_blank(b) {
        assert forall|i: int| 0 <= i < (a + b).len() implies is_ws(#[trigger] (a + b)[i]) by {
            if i < a.len() {
                assert((a + b)[i] == a[i]);
            } else {
                assert((a + b)[i] == b[i - a.len()]);
            }
        }
    }
}

/// Joining the pieces of a split with its separator gives back the text.
pub proof fn lemma_join_split_on(s: Seq<char>, sep: char)
    ensures
        join(split_on(s, sep), seq![sep]) == s,
    decreases s.len(),
{
    if s.len() > 0 {
        let rest = split_on(s.drop_last(), sep);
        lemma_join_split_on(s.drop_last(), sep);
        lemma_split_on_nonempty(s.drop_last(), sep);
        if s.last() == sep {
            let p = rest.push(Seq::empty());
            assert(p.drop_last() =~= rest);
            assert(s =~= s.drop_last() + seq![sep] + Seq::<char>::empty());
        } else {
            let p = rest.update(rest.len() - 1, rest.last().push(s.last()));
            if rest.len() == 1 {
                assert(s =~= rest[0].push(s.last()));
            } else {
                assert(p.drop_last() =~= rest.drop_last());
                assert(join(rest, seq![sep]) == join(rest.drop_last(), seq![sep]) + seq![sep]
                    + rest.last());
                let x = join(rest.drop_last(), seq![sep]) + seq![sep];
                assert(s =~= s.drop_last().push(s.last()));
                assert((x + rest.last()).push(s.last()) =~= x + rest.last().push(s.last()));
            }
        }
    } else {
        assert(join(seq![Seq::<char>::empty()], seq![sep]) == Seq::<char>::empty());
    }
}

/// A join of at least one part is blank exactly when the separator (if used) and every
/// part are.
pub proof fn lemma_blank_join(parts: Seq<Seq<char>>, sep: Seq<char>)
    requires
        parts.len() >= 1,
        is_blank(sep),
    ensures
        is_blank(join(parts, sep)) <==> forall|k: int| 0 <= k < parts.len() ==> is_blank(
            #[trigger] parts[k],
        ),
    decreases parts.len(),
{
    if parts.len() >= 2 {
        lemma_blank_join(parts.drop_last(), sep);
        lemma_blank_concat(join(parts.drop_last(), sep), sep);
        lemma_blank_concat(join(parts.drop_last(), sep) + sep, parts.last());
        if is_blank(join(parts, sep)) {
            assert forall|k: int| 0 <= k < parts.len() implies is_blank(#[trigger] parts[k]) by {
                if k < parts.len() - 1 {
                    assert(parts[k] == parts.drop_last()[k]);
                }
            }
        }
        if forall|k: int| 0 <= k < parts.len() ==> is_blank(#[trigger] parts[k]) {
            assert forall|k: int| 0 <= k < parts.drop_last().len() implies is_blank(
                #[trigger] parts.drop_last()[k],
            ) by {
                assert(parts[k] == parts.drop_last()[k]);
            }
        }
    }
}

/// The first part of a join stands at its start.
pub proof fn lemma_join_prefix(parts: Seq<Seq<char>>, sep: Seq<char>)
    requires
        parts.len() >= 1,
    ensures
        join(parts, sep).len() >= parts[0].len(),
        join(parts, sep).subrange(0, parts[0].len() as int) == parts[0],
    decreases parts.len(),
{
    if parts.len() >= 2 {
        lemma_join_prefix(parts.drop_last(), sep);
        let j = join(parts.drop_last(), sep);
        assert((j + sep + parts.last()).subrange(0, parts[0].len() as int) =~= j.subrange(
            0,
            parts[0].len() as int,
        ));
    } else {
        assert(parts[0].subrange(0, parts[0].len() as int) =~= parts[0]);
    }
}

/// A text is blank exactly when each of its lines is.
pub proof fn lemma_blank_lines(s: Seq<char>)
    ensures
        is_blank(s) <==> forall|k: int| 0 <= k < text_lines(s).len() ==> is_blank(
            #[trigger] text_lines(s)[k],
        ),
{
    let p = split_on(s, '\n');
    let ls = text_lines(s);
    lemma_split_on_nonempty(s, '\n');
    lemma_join_split_on(s, '\n');
    assert(is_blank(seq!['\n'])) by {
        assert(seq!['\n'][0] == '\n');
    }
    lemma_blank_join(p, seq!['\n']);
    assert forall|k: int| 0 <= k < p.len() implies (is_blank(#[trigger] p[k]) <==> is_blank(
        strip_cr(p[k]),
    )) by {
        if p[k].len() > 0 && p[k].last() == '\r' {
            assert(p[k] =~= p[k].drop_last() + seq!['\r']);
            lemma_blank_concat(p[k].drop_last(), seq!['\r']);
            assert(is_blank(seq!['\r'])) by {
                assert(seq!['\r'][0] == '\r');
            }
        }
    }
    if forall|k: int| 0 <= k < ls.len() ==> is_blank(#[trigger] ls[k]) {
        assert forall|k: int| 0 <= k < p.len() implies is_blank(#[trigger] p[k]) by {
            if k < ls.len() {
                assert(ls[k] == (if k < p.len() - 1 {
                    strip_cr(p[k])
                } else {
                    p[k]
                }));
            } else {
                assert(p[k].len() == 0);
            }
        }
    }
    if is_blank(s) {
        assert forall|k: int| 0 <= k < ls.len() implies is_blank(#[trigger] ls[k]) by {
            assert(is_blank(p[k]));
        }
    }
}

} // verus!

verus! {

/// A final line ending adds no line: `t` and `t` followed by `\n` have the same lines,
/// unless `t` already ends with a line ending or a carriage return.
pub proof fn lemma_final_newline_lines(t: Seq<char>)
    requires
        t.len() > 0,
        t.last() != '\n',
        t.last() != '\r',
    ensures
        text_lines(t.push('\n')) == text_lines(t),
{
    let u = t.push('\n');
    assert(u.drop_last() =~= t);
    let p = split_on(t, '\n');
    lemma_split_on_nonempty(t, '\n');
    lemma_split_on_nonempty(t.drop_last(), '\n');
    let rest = split_on(t.drop_last(), '\n');
    assert(p.last() == rest.last().push(t.last()));
    let q = split_on(u, '\n');
    assert(q == p.push(Seq::<char>::empty()));
    assert(strip_cr(p.last()) == p.last());
    assert(text_lines(u) =~= text_lines(t));
}

/// The text `\n` has one line, an empty one.
pub proof fn lemma_newline_lines()
    ensures
        text_lines(seq!['\n']) == seq![Seq::<char>::empty()],
{
    let s = seq!['\n'];
    assert(s.drop_last() =~= Seq::<char>::empty());
    assert(split_on(s.drop_last(), '\n') == seq![Seq::<char>::empty()]);
    assert(s.last() == '\n');
    assert(split_on(s, '\n') =~= seq![Seq::<char>::empty(), Seq::<char>::empty()]);
    assert(text_lines(s) =~= seq![Seq::<char>::empty()]);
}

} // verus!

verus! {

/// `s` holds no `c`.
pub open spec fn lacks(s: Seq<char>, c: char) -> bool {
    forall|i: int| 0 <= i < s.len() ==> #[trigger] s[i] != c
}

/// The pieces of a split hold no separator, and no character that the text does not hold.
pub proof fn lemma_split_on_lacks(s: Seq<char>, sep: char, c: char)
    ensures
        forall|k: int| 0 <= k < split_on(s, sep).len() ==> lacks(#[trigger] split_on(s, sep)[k], sep),
        lacks(s, c) ==> forall|k: int|
            0 <= k < split_on(s, sep).len() ==> lacks(#[trigger] split_on(s, sep)[k], c),
    decreases s.len(),
{
    if s.len() > 0 {
        lemma_split_on_lacks(s.drop_last(), sep, c);
        lemma_split_on_nonempty(s.drop_last(), sep);
        let rest = split_on(s.drop_last(), sep);
        if lacks(s, c) {
            assert forall|i: int| 0 <= i < s.drop_last().len() implies #[trigger] s.drop_last()[i]
                != c by {
                assert(s.drop_last()[i] == s[i]);
            }
            assert(s.last() != c);
        }
        if s.last() != sep {
            let l = rest.last().push(s.last());
            assert(lacks(rest[rest.len() - 1], sep));
            assert forall|i: int| 0 <= i < l.len() implies #[trigger] l[i] != sep by {
                if i < l.len() - 1 {
                    assert(l[i] == rest.last()[i]);
                }
            }
            if lacks(s, c) {
                assert(lacks(rest[rest.len() - 1], c));
                assert forall|i: int| 0 <= i < l.len() implies #[trigger] l[i] != c by {
                    if i < l.len() - 1 {
                        assert(l[i] == rest.last()[i]);
                    }
                }
            }
        }
    }
}

/// The lines of a text hold no line ending, and no character that the text does not hold.
pub proof fn lemma_text_lines_lack(s: Seq<char>, c: char)
    ensures
        forall|k: int| 0 <= k < text_lines(s).len() ==> lacks(#[trigger] text_lines(s)[k], '\n'),
        lacks(s, c) ==> forall|k: int|
            0 <= k < text_lines(s).len() ==> lacks(#[trigger] text_lines(s)[k], c),
{
    let p = split_on(s, '\n');
    lemma_split_on_lacks(s, '\n', c);
    lemma_split_on_nonempty(s, '\n');
    assert forall|k: int| 0 <= k < text_lines(s).len() implies lacks(#[trigger] text_lines(s)[k], '\n')
        && (lacks(s, c) ==> lacks(text_lines(s)[k], c)) by {
        let l = text_lines(s)[k];
        assert(lacks(p[k], '\n'));
        assert forall|i: int| 0 <= i < l.len() implies #[trigger] l[i] == p[k][i] by {}
        if lacks(s, c) {
            assert(lacks(p[k], c));
        }
    }
}

pub proof fn lemma_split_on_no_sep(s: Seq<char>, sep: char)
    requires
        lacks(s, sep),
    ensures
        split_on(s, sep) == seq![s],
    decreases s.len(),
{
    if s.len() > 0 {
        assert(lacks(s.drop_last(), sep)) by {
            assert forall|i: int| 0 <= i < s.drop_last().len() implies #[trigger] s.drop_last()[i]
                != sep by {
                assert(s.drop_last()[i] == s[i]);
            }
        }
        lemma_split_on_no_sep(s.drop_last(), sep);
        assert(s.last() != sep);
        assert(s.drop_last().push(s.last()) =~= s);
        assert(seq![s.drop_last()].update(0, s.drop_last().push(s.last())) =~= seq![s]);
    } else {
        assert(s =~= Seq::<char>::empty());
    }
}

/// Text without a separator appended to a text extends its last piece.
proof fn lemma_split_on_append(a: Seq<char>, b: Seq<char>, sep: char)
    requires
        lacks(b, sep),
    ensures
        split_on(a + b, sep) == split_on(a, sep).update(
            split_on(a, sep).len() - 1,
            split_on(a, sep).last() + b,
        ),
    decreases b.len(),
{
    lemma_split_on_nonempty(a, sep);
    let p = split_on(a, sep);
    if b.len() == 0 {
        assert(a + b =~= a);
        assert(p.update(p.len() - 1, p.last() + b) =~= p);
    } else {
        let b2 = b.drop_last();
        assert(lacks(b2, sep)) by {
            assert forall|i: int| 0 <= i < b2.len() implies #[trigger] b2[i] != sep by {
                assert(b2[i] == b[i]);
            }
        }
        lemma_split_on_append(a, b2, sep);
        assert((a + b).drop_last() =~= a + b2);
        assert((a + b).last() == b.last());
        assert(b.last() != sep);
        let q = p.update(p.len() - 1, p.last() + b2);
        assert(q.last() == p.last() + b2);
        assert((p.last() + b2).push(b.last()) =~= p.last() + b);
        assert(q.update(q.len() - 1, q.last().push(b.last())) =~= p.update(
            p.len() - 1,
            p.last() + b,
        ));
    }
}

/// Splitting lines joined with a separator they do not hold gives them back.
pub proof fn lemma_split_join(parts: Seq<Seq<char>>, sep: char)
    requires
        parts.len() >= 1,
        forall|k: int| 0 <= k < parts.len() ==> lacks(#[trigger] parts[k], sep),
    ensures
        split_on(join(parts, seq![sep]), sep) == parts,
    decreases parts.len(),
{
    if parts.len() == 1 {
        lemma_split_on_no_sep(parts[0], sep);
        assert(seq![parts[0]] =~= parts);
    } else {
        let pre = parts.drop_last();
        assert forall|k: int| 0 <= k < pre.len() implies lacks(#[trigger] pre[k], sep) by {
            assert(pre[k] == parts[k]);
        }
        lemma_split_join(pre, sep);
        let x = join(pre, seq![sep]);
        assert(x + seq![sep] =~= x.push(sep));
        assert((x.push(sep)).drop_last() =~= x);
        assert(split_on(x.push(sep), sep) == split_on(x, sep).push(Seq::empty()));
        assert(lacks(parts[parts.len() - 1], sep));
        lemma_split_on_append(x.push(sep), parts.last(), sep);
        assert(pre.push(Seq::<char>::empty()).update(pre.len() as int, Seq::<char>::empty() + parts.last())
            =~= parts);
    }
}

/// The lines of lines joined with `\n` are those lines, when none holds a line ending or a
/// carriage return and the last is not empty.
pub proof fn lemma_lines_of_join(parts: Seq<Seq<char>>)
    requires
        parts.len() >= 1,
        forall|k: int|
            0 <= k < parts.len() ==> lacks(#[trigger] parts[k], '\n') && lacks(parts[k], '\r'),
        parts.last().len() > 0,
    ensures
        text_lines(join(parts, seq!['\n'])) == parts,
{
    lemma_split_join(parts, '\n');
    let p = split_on(join(parts, seq!['\n']), '\n');
    assert forall|k: int| 0 <= k < parts.len() implies strip_cr(#[trigger] parts[k]) == parts[k] by {
        if parts[k].len() > 0 {
            assert(parts[k][parts[k].len() - 1] != '\r');
        }
    }
    assert(text_lines(join(parts, seq!['\n'])) =~= parts);
}

/// Joining two non-empty lists is joining their joins.
pub proof fn lemma_join_concat(a: Seq<Seq<char>>, b: Seq<Seq<char>>, sep: Seq<char>)
    requires
        a.len() >= 1,
        b.len() >= 1,
    ensures
        join(a + b, sep) == join(a, sep) + sep + join(b, sep),
    decreases b.len(),
{
    if b.len() == 1 {
        assert((a + b).drop_last() =~= a);
        assert((a + b).last() == b[0]);
    } else {
        lemma_join_concat(a, b.drop_last(), sep);
        assert((a + b).drop_last() =~= a + b.drop_last());
        assert((a + b).last() == b.last());
        assert(join(a, sep) + sep + join(b.drop_last(), sep) + sep + b.last() =~= join(a, sep) + sep
            + (join(b.drop_last(), sep) + sep + b.last()));
    }
}

} // verus!

verus! {

/// Lines joined back with `\n` give the text again, without its final line ending, for a
/// text without carriage returns; no line holds a line ending.
pub proof fn law_lines_rejoin(s: Seq<char>)
    requires
        lacks(s, '\r'),
    ensures
        join(text_lines(s), seq!['\n']) == if s.len() > 0 && s.last() == '\n' {
            s.drop_last()
        } else {
            s
        },
        forall|k: int| 0 <= k < text_lines(s).len() ==> lacks(#[trigger] text_lines(s)[k], '\n'),
{
    let p = split_on(s, '\n');
    lemma_split_on_nonempty(s, '\n');
    lemma_split_on_lacks(s, '\n', '\r');
    lemma_join_split_on(s, '\n');
    lemma_text_lines_lack(s, '\r');
    assert forall|k: int| 0 <= k < p.len() implies strip_cr(#[trigger] p[k]) == p[k] by {
        assert(lacks(p[k], '\r'));
        if p[k].len() > 0 {
            assert(p[k][p[k].len() - 1] != '\r');
        }
    }
    if p.last().len() == 0 {
        assert(text_lines(s) =~= p.drop_last());
        if p.len() == 1 {
            assert(s == p[0]);
            assert(s.len() == 0);
            assert(text_lines(s) =~= Seq::<Seq<char>>::empty());
        } else {
            assert(s == join(p.drop_last(), seq!['\n']) + seq!['\n'] + p.last());
            assert(s =~= join(p.drop_last(), seq!['\n']).push('\n'));
            assert(s.drop_last() =~= join(p.drop_last(), seq!['\n']));
        }
    } else {
        assert(text_lines(s) =~= p);
        if s.len() > 0 && s.last() == '\n' {
            assert(s.drop_last().push('\n') =~= s);
            assert(split_on(s, '\n') == split_on(s.drop_last(), '\n').push(Seq::empty()));
        }
    }
}

/// What is saved ends with exactly the text and one line ending at most added: a text that
/// ends with `\n` is kept, any other gets one `\n`; doing it twice changes nothing more.
pub proof fn law_ending_in_newline(s: Seq<char>)
    ensures
        ending_in_newline(s).len() > 0,
        ending_in_newline(s).last() == '\n',
        ending_in_newline(s).take(s.len() as int) == s,
        ending_in_newline(s).len() <= s.len() + 1,
        s.len() > 0 && s.last() == '\n' ==> ending_in_newline(s) == s,
        ending_in_newline(ending_in_newline(s)) == ending_in_newline(s),
{
    assert(s.take(s.len() as int) =~= s);
    assert(s.push('\n').take(s.len() as int) =~= s);
}

} // verus!

verus! {

/// Splitting around one separator splits each side on its own.
pub proof fn lemma_split_on_concat(a: Seq<char>, sep: char, b: Seq<char>)
    ensures
        split_on(a + seq![sep] + b, sep) == split_on(a, sep) + split_on(b, sep),
    decreases b.len(),
{
    if b.len() == 0 {
        assert(a + seq![sep] + b =~= a + seq![sep]);
        assert((a + seq![sep]).drop_last() =~= a);
        assert(split_on(a, sep) + split_on(b, sep) =~= split_on(a, sep).push(Seq::empty()));
    } else {
        let b2 = b.drop_last();
        lemma_split_on_concat(a, sep, b2);
        assert((a + seq![sep] + b).drop_last() =~= a + seq![sep] + b2);
        assert((a + seq![sep] + b).last() == b.last());
        let p = split_on(a, sep);
        let q = split_on(b2, sep);
        lemma_split_on_nonempty(b2, sep);
        if b.last() == sep {
            assert((p + q).push(Seq::empty()) =~= p + q.push(Seq::empty()));
        } else {
            assert((p + q).update((p + q).len() - 1, (p + q).last().push(b.last())) =~= p
                + q.update(q.len() - 1, q.last().push(b.last())));
        }
    }
}

} // verus!
