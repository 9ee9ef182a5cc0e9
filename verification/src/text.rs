//! Text as sequences of characters: splitting, trimming, searching and ordering.

use vstd::prelude::*;

verus! {

/// `String::push` appends the one character `c` to the end of the string.
pub assume_specification[ String::push ](s: &mut String, c: char)
    ensures
        final(s)@ == old(s)@.push(c),
;

/// What separates the pieces of a text.
#[derive(Clone, Copy)]
pub enum Sep {
    /// One given character.
    Char(char),
    /// White space, as Unicode defines it.
    White,
    /// A space or a control character.
    Blank,
}

/// The code points with the Unicode property `White_Space`.
pub open spec fn is_white(c: char) -> bool {
    let n = c as u32;
    ||| 0x09 <= n <= 0x0d
    ||| n == 0x20
    ||| n == 0x85
    ||| n == 0xa0
    ||| n == 0x1680
    ||| 0x2000 <= n <= 0x200a
    ||| n == 0x2028
    ||| n == 0x2029
    ||| n == 0x202f
    ||| n == 0x205f
    ||| n == 0x3000
}

/// The control characters: C0, delete and C1.
pub open spec fn is_control(c: char) -> bool {
    let n = c as u32;
    n < 0x20 || n == 0x7f || 0x80 <= n <= 0x9f
}

/// Whether the separator `sep` matches the character `c`.
pub open spec fn separates(sep: Sep, c: char) -> bool {
    match sep {
        Sep::Char(d) => c == d,
        Sep::White => is_white(c),
        Sep::Blank => c == ' ' || is_control(c),
    }
}

/// The pieces of `s` between separators: one more than there are separators.
pub open spec fn split(s: Seq<char>, sep: Sep) -> Seq<Seq<char>>
    decreases s.len(),
{
    if s.len() == 0 {
        seq![Seq::<char>::empty()]
    } else {
        let before = split(s.drop_last(), sep);
        if separates(sep, s.last()) {
            before.push(Seq::<char>::empty())
        } else {
            before.drop_last().push(before.last().push(s.last()))
        }
    }
}

/// The elements that are not empty, in order.
pub open spec fn nonempty(pieces: Seq<Seq<char>>) -> Seq<Seq<char>>
    decreases pieces.len(),
{
    if pieces.len() == 0 {
        Seq::<Seq<char>>::empty()
    } else if pieces.last().len() == 0 {
        nonempty(pieces.drop_last())
    } else {
        nonempty(pieces.drop_last()).push(pieces.last())
    }
}

/// The runs of characters of `s` that hold no separator.
pub open spec fn words(s: Seq<char>, sep: Sep) -> Seq<Seq<char>> {
    nonempty(split(s, sep))
}

/// The texts in `parts` one after another, with `glue` between any two.
pub open spec fn join(parts: Seq<Seq<char>>, glue: Seq<char>) -> Seq<char>
    decreases parts.len(),
{
    if parts.len() == 0 {
        Seq::<char>::empty()
    } else if parts.len() == 1 {
        parts[0]
    } else {
        join(parts.drop_last(), glue) + glue + parts.last()
    }
}

/// `s` without the white space it starts with.
pub open spec fn trim_start(s: Seq<char>) -> Seq<char>
    decreases s.len(),
{
    if s.len() > 0 && is_white(s[0]) {
        trim_start(s.drop_first())
    } else {
        s
    }
}

/// `s` without the white space it ends with.
pub open spec fn trim_end(s: Seq<char>) -> Seq<char>
    decreases s.len(),
{
    if s.len() > 0 && is_white(s.last()) {
        trim_end(s.drop_last())
    } else {
        s
    }
}

/// `s` without the white space around it.
pub open spec fn trim(s: Seq<char>) -> Seq<char> {
    trim_end(trim_start(s))
}

/// The index of the first `c` in `s`.
pub open spec fn find(s: Seq<char>, c: char) -> Option<int>
    decreases s.len(),
{
    if s.len() == 0 {
        None
    } else if s[0] == c {
        Some(0)
    } else {
        match find(s.drop_first(), c) {
            Some(i) => Some(i + 1),
            None => None,
        }
    }
}

/// The index of the last `c` in `s`.
pub open spec fn rfind(s: Seq<char>, c: char) -> Option<int>
    decreases s.len(),
{
    if s.len() == 0 {
        None
    } else if s.last() == c {
        Some(s.len() - 1)
    } else {
        rfind(s.drop_last(), c)
    }
}

/// What stands before and after the first `c`.
pub open spec fn split_once(s: Seq<char>, c: char) -> Option<(Seq<char>, Seq<char>)> {
    match find(s, c) {
        Some(i) => Some((s.take(i), s.skip(i + 1))),
        None => None,
    }
}

/// Whether `s` begins with `prefix`.
pub open spec fn starts_with(s: Seq<char>, prefix: Seq<char>) -> bool {
    prefix.len() <= s.len() && s.take(prefix.len() as int) == prefix
}

/// `s` without one carriage return at its end.
pub open spec fn strip_cr(s: Seq<char>) -> Seq<char> {
    if s.len() > 0 && s.last() == '\r' {
        s.drop_last()
    } else {
        s
    }
}

/// The lines of `s`. A line ends in a line feed, or in a carriage return and a line feed;
/// what follows the last line feed is a line where it is not empty.
pub open spec fn lines(s: Seq<char>) -> Seq<Seq<char>> {
    let pieces = split(s, Sep::Char('\n'));
    let ended = pieces.drop_last().map_values(|l: Seq<char>| strip_cr(l));
    if pieces.last().len() == 0 {
        ended
    } else {
        ended.push(pieces.last())
    }
}

/// Lexicographic order by code point.
pub open spec fn lex_less(a: Seq<char>, b: Seq<char>) -> bool
    decreases b.len(),
{
    if b.len() == 0 {
        false
    } else if a.len() == 0 {
        true
    } else if a[0] == b[0] {
        lex_less(a.drop_first(), b.drop_first())
    } else {
        a[0] < b[0]
    }
}

/// `n` spaces.
pub open spec fn spaces(n: nat) -> Seq<char> {
    Seq::new(n, |i: int| ' ')
}

/// The texts that the strings of a vector hold.
pub open spec fn views(v: Seq<String>) -> Seq<Seq<char>> {
    v.map_values(|s: String| s@)
}

/// The texts that the vectors of characters of a vector hold.
pub open spec fn char_views(v: Seq<Vec<char>>) -> Seq<Seq<char>> {
    v.map_values(|s: Vec<char>| s@)
}

/// What an optional string holds.
pub open spec fn opt_view(s: Option<String>) -> Option<Seq<char>> {
    match s {
        Some(t) => Some(t@),
        None => None,
    }
}

/// Appending texts one by one appends them as a whole.
pub proof fn lemma_append_five(
    s: Seq<char>,
    a: Seq<char>,
    b: Seq<char>,
    c: Seq<char>,
    d: Seq<char>,
    e: Seq<char>,
)
    ensures
        s + a + b + c + d + e == s + (a + b + c + d + e),
{
    assert(s + a + b + c + d + e =~= s + (a + b + c + d + e));
}

/// There is always a last piece.
pub proof fn lemma_split_len(s: Seq<char>, sep: Sep)
    ensures
        split(s, sep).len() > 0,
    decreases s.len(),
{
    if s.len() > 0 {
        lemma_split_len(s.drop_last(), sep);
    }
}

/// No piece of a split text holds a separator.
pub proof fn law_pieces_hold_no_separator(s: Seq<char>, sep: Sep)
    ensures
        forall|i: int, j: int|
            0 <= i < split(s, sep).len() && 0 <= j < split(s, sep)[i].len() ==> !separates(
                sep,
                #[trigger] split(s, sep)[i][j],
            ),
    decreases s.len(),
{
    if s.len() > 0 {
        lemma_split_len(s.drop_last(), sep);
        law_pieces_hold_no_separator(s.drop_last(), sep);
        let before = split(s.drop_last(), sep);
        let all = split(s, sep);
        assert forall|i: int, j: int|
            0 <= i < all.len() && 0 <= j < all[i].len() implies !separates(
            sep,
            #[trigger] all[i][j],
        ) by {
            if i < before.len() - 1 {
                assert(all[i] == before[i]);
                assert(!separates(sep, before[i][j]));
            } else if separates(sep, s.last()) {
                if i == before.len() - 1 {
                    assert(all[i] == before[i]);
                    assert(!separates(sep, before[i][j]));
                }
            } else if j < before.last().len() {
                assert(all[i][j] == before[before.len() - 1][j]);
            }
        }
    }
}

/// Adding one separator and a text without any adds that text as the last piece.
pub proof fn lemma_split_behind(a: Seq<char>, c: char, b: Seq<char>, sep: Sep)
    requires
        separates(sep, c),
        forall|j: int| 0 <= j < b.len() ==> !separates(sep, #[trigger] b[j]),
    ensures
        split(a.push(c) + b, sep) == split(a, sep).push(b),
    decreases b.len(),
{
    let whole = a.push(c) + b;
    if b.len() == 0 {
        assert(whole =~= a.push(c));
        assert(whole.drop_last() =~= a);
        assert(b =~= Seq::<char>::empty());
    } else {
        let front = b.drop_last();
        assert forall|j: int| 0 <= j < front.len() implies !separates(
            sep,
            #[trigger] front[j],
        ) by {
            assert(front[j] == b[j]);
        }
        lemma_split_behind(a, c, front, sep);
        assert(whole.drop_last() =~= a.push(c) + front);
        assert(whole.last() == b[b.len() - 1]);
        let before = split(a.push(c) + front, sep);
        assert(before.drop_last() =~= split(a, sep));
        assert(before.last().push(b.last()) =~= b);
    }
}

/// A text without separators is its own only piece.
pub proof fn lemma_split_solid(b: Seq<char>, sep: Sep)
    requires
        forall|j: int| 0 <= j < b.len() ==> !separates(sep, #[trigger] b[j]),
    ensures
        split(b, sep) == seq![b],
    decreases b.len(),
{
    if b.len() == 0 {
        assert(b =~= Seq::<char>::empty());
        assert(split(b, sep) =~= seq![b]);
    } else {
        let front = b.drop_last();
        assert forall|j: int| 0 <= j < front.len() implies !separates(
            sep,
            #[trigger] front[j],
        ) by {
            assert(front[j] == b[j]);
        }
        lemma_split_solid(front, sep);
        assert(split(b, sep) =~= seq![front.push(b.last())]);
        assert(front.push(b.last()) =~= b);
    }
}

/// Two texts with a separator between them have the pieces of both.
pub proof fn lemma_split_around(a: Seq<char>, c: char, b: Seq<char>, sep: Sep)
    requires
        separates(sep, c),
    ensures
        split(a + seq![c] + b, sep) == split(a, sep) + split(b, sep),
    decreases b.len(),
{
    let s = a + seq![c] + b;
    if b.len() == 0 {
        assert(s =~= a.push(c));
        assert(s.drop_last() =~= a);
        assert(split(s, sep) =~= split(a, sep) + split(b, sep));
    } else {
        let front = b.drop_last();
        lemma_split_around(a, c, front, sep);
        lemma_split_len(front, sep);
        assert(s.drop_last() =~= a + seq![c] + front);
        assert(s.last() == b.last());
        assert(split(s, sep) =~= split(a, sep) + split(b, sep));
    }
}

/// Joining the pieces with the character they were split at gives back the text.
pub proof fn law_split_then_join(s: Seq<char>, c: char)
    ensures
        join(split(s, Sep::Char(c)), seq![c]) == s,
    decreases s.len(),
{
    let sep = Sep::Char(c);
    if s.len() > 0 {
        let front = s.drop_last();
        let before = split(front, sep);
        lemma_split_len(front, sep);
        law_split_then_join(front, c);
        let all = split(s, sep);
        if s.last() == c {
            assert(all.drop_last() =~= before);
            assert(join(all, seq![c]) =~= front.push(c));
        } else {
            assert(all.drop_last() =~= before.drop_last());
            assert(join(all, seq![c]) =~= join(before, seq![c]).push(s.last()));
        }
        assert(s =~= front.push(s.last()));
    }
}

/// Where the first `c` stands is where `c` stands and nothing before it is `c`.
pub proof fn lemma_find_at(s: Seq<char>, c: char, i: int)
    requires
        0 <= i < s.len(),
        s[i] == c,
        forall|j: int| 0 <= j < i ==> s[j] != c,
    ensures
        find(s, c) == Some(i),
    decreases s.len(),
{
    if i > 0 {
        assert(s[0] != c);
        assert forall|j: int| 0 <= j < i - 1 implies s.drop_first()[j] != c by {
            assert(s[j + 1] != c);
        }
        lemma_find_at(s.drop_first(), c, i - 1);
    }
}

/// A text without `c` has no first `c`.
pub proof fn lemma_find_none(s: Seq<char>, c: char)
    requires
        forall|j: int| 0 <= j < s.len() ==> s[j] != c,
    ensures
        find(s, c) is None,
    decreases s.len(),
{
    if s.len() > 0 {
        assert(s[0] != c);
        assert forall|j: int| 0 <= j < s.drop_first().len() implies s.drop_first()[j] != c by {
            assert(s[j + 1] != c);
        }
        lemma_find_none(s.drop_first(), c);
    }
}

/// The first `c`, where there is one, is a `c` and the first.
pub proof fn lemma_find_is(s: Seq<char>, c: char)
    ensures
        match find(s, c) {
            Some(i) => {
                &&& 0 <= i < s.len()
                &&& s[i] == c
                &&& forall|j: int| 0 <= j < i ==> s[j] != c
            },
            None => forall|j: int| 0 <= j < s.len() ==> s[j] != c,
        },
    decreases s.len(),
{
    if s.len() > 0 && s[0] != c {
        let t = s.drop_first();
        lemma_find_is(t, c);
        match find(t, c) {
            Some(i) => {
                assert forall|j: int| 0 <= j < i + 1 implies s[j] != c by {
                    if j > 0 {
                        assert(t[j - 1] != c);
                    }
                }
            },
            None => {
                assert forall|j: int| 0 <= j < s.len() implies s[j] != c by {
                    if j > 0 {
                        assert(t[j - 1] != c);
                    }
                }
            },
        }
    }
}

/// The characters of `s`, one by one.
pub fn chars_of(s: &str) -> (r: Vec<char>)
    ensures
        r@ == s@,
{
    let mut r: Vec<char> = Vec::new();
    for c in it: s.chars()
        invariant
            it.seq() == s@,
            r@ == s@.take(it.index() as int),
    {
        r.push(c);
    }
    r
}

/// The string made of the given characters.
pub fn string_of(v: &[char]) -> (r: String)
    ensures
        r@ == v@,
{
    let mut r = String::new();
    push_chars(&mut r, v);
    r
}

/// Appends the given characters.
pub fn push_chars(out: &mut String, v: &[char])
    ensures
        final(out)@ == old(out)@ + v@,
{
    for i in 0..v.len()
        invariant
            out@ == old(out)@ + v@.take(i as int),
    {
        out.push(v[i]);
    }
    assert(v@.take(v.len() as int) =~= v@);
}

/// Appends `n` spaces.
pub fn push_spaces(out: &mut String, n: usize)
    ensures
        final(out)@ == old(out)@ + spaces(n as nat),
{
    for i in 0..n
        invariant
            out@ == old(out)@ + spaces(i as nat),
    {
        out.push(' ');
    }
}

/// Whether two sequences of characters are equal.
pub fn same_chars(a: &[char], b: &[char]) -> (r: bool)
    ensures
        r == (a@ == b@),
{
    if a.len() != b.len() {
        return false;
    }
    for i in 0..a.len()
        invariant
            a@.len() == b@.len(),
            forall|j: int| 0 <= j < i ==> a@[j] == b@[j],
    {
        if a[i] != b[i] {
            return false;
        }
    }
    assert(a@ =~= b@);
    true
}

/// Whether two texts hold the same characters.
pub fn same(a: &str, b: &str) -> (r: bool)
    ensures
        r == (a@ == b@),
{
    same_chars(chars_of(a).as_slice(), chars_of(b).as_slice())
}

/// Whether `c` is white space.
pub fn white(c: char) -> (r: bool)
    ensures
        r == is_white(c),
{
    let n: u32 = c as u32;
    (0x09 <= n && n <= 0x0d) || n == 0x20 || n == 0x85 || n == 0xa0 || n == 0x1680 || (0x2000 <= n
        && n <= 0x200a) || n == 0x2028 || n == 0x2029 || n == 0x202f || n == 0x205f || n == 0x3000
}

/// Whether `c` is a control character.
pub fn control(c: char) -> (r: bool)
    ensures
        r == is_control(c),
{
    let n: u32 = c as u32;
    n < 0x20 || n == 0x7f || (0x80 <= n && n <= 0x9f)
}

/// Whether `sep` matches `c`.
pub fn separator(sep: Sep, c: char) -> (r: bool)
    ensures
        r == separates(sep, c),
{
    match sep {
        Sep::Char(d) => c == d,
        Sep::White => white(c),
        Sep::Blank => c == ' ' || control(c),
    }
}

/// The pieces of `s` between separators.
pub fn split_chars(s: &[char], sep: Sep) -> (r: Vec<Vec<char>>)
    ensures
        char_views(r@) == split(s@, sep),
{
    let mut done: Vec<Vec<char>> = Vec::new();
    let mut cur: Vec<char> = Vec::new();
    assert(char_views(done@).push(cur@) =~= split(s@.take(0), sep));
    for i in 0..s.len()
        invariant
            char_views(done@).push(cur@) == split(s@.take(i as int), sep),
    {
        let ghost before = char_views(done@).push(cur@);
        assert(s@.take(i + 1).drop_last() =~= s@.take(i as int));
        assert(before.last() == cur@);
        assert(before.drop_last() =~= char_views(done@));
        if separator(sep, s[i]) {
            let ghost was = done@;
            let ghost last = cur;
            done.push(cur);
            cur = Vec::new();
            assert(char_views(done@) =~= char_views(was).push(last@));
        } else {
            cur.push(s[i]);
        }
        assert(char_views(done@).push(cur@) =~= split(s@.take(i + 1), sep));
    }
    assert(s@.take(s.len() as int) =~= s@);
    let ghost was = done@;
    let ghost last = cur;
    done.push(cur);
    assert(char_views(done@) =~= char_views(was).push(last@));
    done
}

/// The runs of characters of `s` that hold no separator.
pub fn words_of(s: &[char], sep: Sep) -> (r: Vec<Vec<char>>)
    ensures
        char_views(r@) == words(s@, sep),
{
    let pieces = split_chars(s, sep);
    let ghost all = char_views(pieces@);
    let mut r: Vec<Vec<char>> = Vec::new();
    assert(char_views(r@) =~= nonempty(all.take(0)));
    for i in 0..pieces.len()
        invariant
            all == char_views(pieces@),
            char_views(r@) == nonempty(all.take(i as int)),
    {
        assert(all.take(i + 1).drop_last() =~= all.take(i as int));
        assert(all.take(i + 1).last() == pieces@[i as int]@);
        if pieces[i].len() > 0 {
            let word = copy_chars(pieces[i].as_slice());
            let ghost was = r@;
            r.push(word);
            assert(char_views(r@) =~= char_views(was).push(word@));
        }
    }
    assert(all.take(all.len() as int) =~= all);
    r
}

/// A copy of the given characters.
pub fn copy_chars(v: &[char]) -> (r: Vec<char>)
    ensures
        r@ == v@,
{
    copy_range(v, 0, v.len())
}

/// A copy of the characters from `from` up to `to`.
pub fn copy_range(v: &[char], from: usize, to: usize) -> (r: Vec<char>)
    requires
        from <= to <= v@.len(),
    ensures
        r@ == v@.subrange(from as int, to as int),
{
    let mut r: Vec<char> = Vec::new();
    for i in from..to
        invariant
            from <= i <= to <= v@.len(),
            r@ == v@.subrange(from as int, i as int),
    {
        r.push(v[i]);
        assert(r@ =~= v@.subrange(from as int, i + 1));
    }
    r
}

/// `s` without the white space around it.
pub fn trim_chars(s: &[char]) -> (r: Vec<char>)
    ensures
        r@ == trim(s@),
{
    let mut from: usize = 0;
    let n: usize = s.len();
    assert(s@.skip(0) =~= s@);
    while from < n && white(s[from])
        invariant
            n == s@.len(),
            from <= n,
            trim_start(s@.skip(from as int)) == trim_start(s@),
        decreases n - from,
    {
        assert(s@.skip(from as int).drop_first() =~= s@.skip(from + 1));
        from = from + 1;
    }
    let ghost body = s@.skip(from as int);
    assert(trim_start(s@) == body);
    let mut to: usize = n;
    assert(s@.subrange(from as int, n as int) =~= body);
    while to > from && white(s[to - 1])
        invariant
            n == s@.len(),
            from <= to <= n,
            trim_end(s@.subrange(from as int, to as int)) == trim_end(body),
        decreases to,
    {
        assert(s@.subrange(from as int, to as int).drop_last() =~= s@.subrange(
            from as int,
            to - 1,
        ));
        assert(s@.subrange(from as int, to as int).last() == s@[to - 1]);
        to = to - 1;
    }
    copy_range(s, from, to)
}

/// The index of the first `c`.
pub fn find_char(s: &[char], c: char) -> (r: Option<usize>)
    ensures
        match r {
            Some(i) => i < s@.len() && find(s@, c) == Some(i as int),
            None => find(s@, c) is None,
        },
{
    for i in 0..s.len()
        invariant
            forall|j: int| 0 <= j < i ==> s@[j] != c,
    {
        if s[i] == c {
            proof {
                lemma_find_at(s@, c, i as int);
            }
            return Some(i);
        }
    }
    proof {
        lemma_find_none(s@, c);
    }
    None
}

/// The index of the last `c`.
pub fn rfind_char(s: &[char], c: char) -> (r: Option<usize>)
    ensures
        match r {
            Some(i) => i < s@.len() && rfind(s@, c) == Some(i as int),
            None => rfind(s@, c) is None,
        },
{
    let mut i: usize = s.len();
    assert(s@.take(s.len() as int) =~= s@);
    while i > 0
        invariant
            i <= s@.len(),
            rfind(s@.take(i as int), c) == rfind(s@, c),
        decreases i,
    {
        assert(s@.take(i as int).drop_last() =~= s@.take(i - 1));
        assert(s@.take(i as int).last() == s@[i - 1]);
        i = i - 1;
        if s[i] == c {
            return Some(i);
        }
    }
    None
}

/// What stands before and after the first `c`.
pub fn split_once_chars(s: &[char], c: char) -> (r: Option<(Vec<char>, Vec<char>)>)
    ensures
        match r {
            Some((a, b)) => split_once(s@, c) == Some((a@, b@)),
            None => split_once(s@, c) is None,
        },
{
    let n: usize = s.len();
    match find_char(s, c) {
        Some(i) => {
            let a = copy_range(s, 0, i);
            let b = copy_range(s, i + 1, n);
            assert(a@ =~= s@.take(i as int));
            assert(b@ =~= s@.skip(i + 1));
            Some((a, b))
        },
        None => None,
    }
}

/// Whether `s` begins with `prefix`.
pub fn begins(s: &[char], prefix: &str) -> (r: bool)
    ensures
        r == starts_with(s@, prefix@),
{
    let p = chars_of(prefix);
    if p.len() > s.len() {
        return false;
    }
    let head = copy_range(s, 0, p.len());
    assert(head@ =~= s@.take(p@.len() as int));
    same_chars(head.as_slice(), p.as_slice())
}

/// The lines of `s`.
pub fn lines_of(s: &[char]) -> (r: Vec<Vec<char>>)
    ensures
        char_views(r@) == lines(s@),
{
    let pieces = split_chars(s, Sep::Char('\n'));
    let ghost all = char_views(pieces@);
    let ghost f = |l: Seq<char>| strip_cr(l);
    proof {
        lemma_split_len(s@, Sep::Char('\n'));
    }
    let n: usize = pieces.len();
    let m: usize = n - 1;
    let mut r: Vec<Vec<char>> = Vec::new();
    for i in 0..m
        invariant
            m + 1 == n == pieces@.len(),
            all == char_views(pieces@),
            f == (|l: Seq<char>| strip_cr(l)),
            char_views(r@) == all.take(i as int).map_values(f),
    {
        let k: usize = pieces[i].len();
        assert(all[i as int] == pieces@[i as int]@);
        let line = if k > 0 && pieces[i][k - 1] == '\r' {
            copy_range(pieces[i].as_slice(), 0, k - 1)
        } else {
            copy_chars(pieces[i].as_slice())
        };
        assert(line@ =~= strip_cr(all[i as int]));
        let ghost was = r@;
        r.push(line);
        assert(char_views(r@) =~= char_views(was).push(line@));
        assert(all.take(i + 1).map_values(f) =~= all.take(i as int).map_values(f).push(line@));
    }
    assert(all.take(n - 1) =~= all.drop_last());
    if pieces[n - 1].len() > 0 {
        let last = copy_chars(pieces[n - 1].as_slice());
        let ghost was = r@;
        r.push(last);
        assert(char_views(r@) =~= char_views(was).push(last@));
    }
    assert(all.last() == pieces@[n - 1]@);
    r
}

/// Whether `a` comes before `b` in lexicographic order.
pub fn precedes(a: &[char], b: &[char]) -> (r: bool)
    ensures
        r == lex_less(a@, b@),
{
    let mut i: usize = 0;
    assert(a@.skip(0) =~= a@);
    assert(b@.skip(0) =~= b@);
    while i < a.len() && i < b.len()
        invariant
            i <= a@.len(),
            i <= b@.len(),
            lex_less(a@.skip(i as int), b@.skip(i as int)) == lex_less(a@, b@),
        decreases a@.len() - i,
    {
        assert(a@.skip(i as int).drop_first() =~= a@.skip(i + 1));
        assert(b@.skip(i as int).drop_first() =~= b@.skip(i + 1));
        if a[i] != b[i] {
            return a[i] < b[i];
        }
        i = i + 1;
    }
    i < b.len()
}

} // verus!
