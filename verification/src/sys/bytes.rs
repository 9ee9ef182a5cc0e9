//! Bytes that the kernel hands out, and the texts they stand for.

use crate::text;
use crate::text::Sep;
use vstd::prelude::*;

verus! {

/// What `String::from_utf8_lossy` makes of bytes.
pub uninterp spec fn utf8_lossy(b: Seq<u8>) -> Seq<char>;

/// `String::from_utf8_lossy` gives the text of bytes that are UTF-8, and puts a replacement
/// character in place of what is not. What it gives is a function of the bytes.
#[verifier::external_body]
pub(crate) fn lossy(b: &[u8]) -> (r: String)
    ensures
        r@ == utf8_lossy(b@),
        vstd::utf8::valid_utf8(b@) ==> r@ == vstd::utf8::decode_utf8(b@),
{
    String::from_utf8_lossy(b).into_owned()
}

/// `String::from_utf8` gives the text of bytes that are UTF-8, and an error for others.
#[verifier::external_body]
pub(crate) fn strict(b: Vec<u8>) -> (r: Option<String>)
    ensures
        (r is Some) == vstd::utf8::valid_utf8(b@),
        r matches Some(s) ==> s@ == vstd::utf8::decode_utf8(b@),
{
    match String::from_utf8(b) {
        Ok(s) => Some(s),
        Err(_) => None,
    }
}

/// What the bytes of each element hold.
pub open spec fn byte_views(v: Seq<Vec<u8>>) -> Seq<Seq<u8>> {
    v.map_values(|b: Vec<u8>| b@)
}

/// What optional bytes hold.
pub open spec fn opt_bytes(b: Option<Vec<u8>>) -> Option<Seq<u8>> {
    match b {
        Some(v) => Some(v@),
        None => None,
    }
}

/// The pieces between zero bytes that are not empty.
pub open spec fn runs(b: Seq<u8>) -> Seq<Seq<u8>>
    decreases b.len(),
{
    if b.len() == 0 || b.last() == 0 {
        if b.len() == 0 {
            Seq::<Seq<u8>>::empty()
        } else {
            runs(b.drop_last())
        }
    } else {
        let before = runs(b.drop_last());
        if b.len() > 1 && b[b.len() - 2] != 0 {
            before.drop_last().push(before.last().push(b.last()))
        } else {
            before.push(seq![b.last()])
        }
    }
}

/// Where the first zero byte stands from `from` on.
pub open spec fn zero_at(b: Seq<u8>, from: int) -> Option<int>
    decreases b.len() - from,
{
    if from < 0 || from >= b.len() {
        None
    } else if b[from] == 0 {
        Some(from)
    } else {
        zero_at(b, from + 1)
    }
}

/// The bytes in front of the first zero byte.
pub open spec fn up_to_zero(b: Seq<u8>) -> Seq<u8> {
    match zero_at(b, 0) {
        Some(i) => b.take(i),
        None => b,
    }
}

/// The texts that bytes stand for.
pub open spec fn texts(parts: Seq<Seq<u8>>) -> Seq<Seq<char>> {
    parts.map_values(|p: Seq<u8>| utf8_lossy(p))
}

/// The command line made of arguments: with a space between any two and without the white space
/// around it. One that is empty is none.
pub open spec fn command_line_text(args: Seq<Seq<char>>) -> Option<Seq<char>> {
    let line = text::trim(text::join(args, seq![' ']));
    if line.len() == 0 {
        None
    } else {
        Some(line)
    }
}

/// What stands behind the last slash of a path.
pub open spec fn base_name(path: Seq<char>) -> Seq<char> {
    text::split(path, Sep::Char('/')).last()
}

/// Where the first zero byte stands from `from` on.
pub fn find_zero(b: &[u8], from: usize) -> (r: Option<usize>)
    requires
        from <= b@.len(),
    ensures
        match r {
            Some(i) => zero_at(b@, from as int) == Some(i as int) && from <= i < b@.len() && b@[
                i as int
            ] == 0,
            None => zero_at(b@, from as int) is None,
        },
{
    let n: usize = b.len();
    let mut i: usize = from;
    while i < n
        invariant
            n == b@.len(),
            from <= i <= n,
            zero_at(b@, from as int) == zero_at(b@, i as int),
        decreases n - i,
    {
        if b[i] == 0 {
            return Some(i);
        }
        i = i + 1;
    }
    None
}

/// The bytes from `from` up to `to`.
pub fn copy_bytes(b: &[u8], from: usize, to: usize) -> (r: Vec<u8>)
    requires
        from <= to <= b@.len(),
    ensures
        r@ == b@.subrange(from as int, to as int),
{
    let mut r: Vec<u8> = Vec::new();
    for i in from..to
        invariant
            from <= to <= b@.len(),
            r@ == b@.subrange(from as int, i as int),
    {
        r.push(b[i]);
        assert(r@ =~= b@.subrange(from as int, i + 1));
    }
    r
}

/// The pieces between zero bytes that are not empty.
pub fn runs_of(b: &[u8]) -> (r: Vec<Vec<u8>>)
    ensures
        byte_views(r@) == runs(b@),
{
    let mut done: Vec<Vec<u8>> = Vec::new();
    let mut open = false;
    assert(byte_views(done@) =~= runs(b@.take(0)));
    for i in 0..b.len()
        invariant
            byte_views(done@) == runs(b@.take(i as int)),
            open == (i > 0 && b@[i - 1] != 0),
            open ==> done@.len() > 0,
    {
        let ghost before = byte_views(done@);
        let ghost now = b@.take(i + 1);
        assert(now.drop_last() =~= b@.take(i as int));
        let c: u8 = b[i];
        if c == 0 {
            open = false;
        } else if open {
            assert(now[now.len() - 2] == b@[i - 1]);
            match done.pop() {
                Some(mut last) => {
                    let ghost rest = done@;
                    let ghost was = last@;
                    assert(before.last() == was);
                    last.push(c);
                    done.push(last);
                    assert(byte_views(rest) =~= before.drop_last());
                    assert(byte_views(done@) =~= before.drop_last().push(was.push(c)));
                },
                None => {},
            }
        } else {
            if i > 0 {
                assert(now[now.len() - 2] == b@[i - 1]);
            }
            let mut piece: Vec<u8> = Vec::new();
            piece.push(c);
            assert(piece@ =~= seq![c]);
            done.push(piece);
            assert(byte_views(done@) =~= before.push(seq![c]));
            open = true;
        }
    }
    assert(b@.take(b@.len() as int) =~= b@);
    done
}

/// The texts that bytes stand for.
pub fn lossy_all(parts: &Vec<Vec<u8>>) -> (r: Vec<String>)
    ensures
        text::views(r@) == texts(byte_views(parts@)),
{
    let ghost all = byte_views(parts@);
    let mut r: Vec<String> = Vec::new();
    assert(text::views(r@) =~= texts(all.take(0)));
    for i in 0..parts.len()
        invariant
            all == byte_views(parts@),
            text::views(r@) == texts(all.take(i as int)),
    {
        let ghost before = r@;
        let t = lossy(parts[i].as_slice());
        r.push(t);
        assert(text::views(r@) =~= text::views(before).push(t@));
        assert(texts(all.take(i + 1)) =~= texts(all.take(i as int)).push(utf8_lossy(all[i as int])));
    }
    assert(all.take(all.len() as int) =~= all);
    r
}

/// The command line made of arguments. Programs that write over their arguments to change how
/// they are listed leave white space at the end.
pub fn command_line(args: &Vec<String>) -> (r: Option<String>)
    ensures
        text::opt_view(r) == command_line_text(text::views(args@)),
{
    let ghost all = text::views(args@);
    let glue = ' ';
    let mut joined: Vec<char> = Vec::new();
    assert(joined@ =~= text::join(all.take(0), seq![' ']));
    for i in 0..args.len()
        invariant
            all == text::views(args@),
            glue == ' ',
            joined@ == text::join(all.take(i as int), seq![' ']),
    {
        let ghost before = joined@;
        assert(all.take(i + 1).drop_last() =~= all.take(i as int));
        assert(all.take(i + 1).last() == args@[i as int]@);
        if i > 0 {
            joined.push(glue);
        }
        let mut arg = text::chars_of(args[i].as_str());
        joined.append(&mut arg);
        assert(joined@ =~= text::join(all.take(i + 1), seq![' ']));
    }
    assert(all.take(all.len() as int) =~= all);
    let line = text::trim_chars(joined.as_slice());
    if line.len() == 0 {
        None
    } else {
        Some(text::string_of(line.as_slice()))
    }
}

/// What stands behind the last slash of a path.
pub fn base_name_of(path: &str) -> (r: String)
    ensures
        r@ == base_name(path@),
{
    let pieces = text::split_chars(text::chars_of(path).as_slice(), Sep::Char('/'));
    let ghost all = text::char_views(pieces@);
    proof {
        text::lemma_split_len(path@, Sep::Char('/'));
        assert(all.last() == pieces@[pieces@.len() - 1]@);
    }
    text::string_of(pieces[pieces.len() - 1].as_slice())
}

} // verus!
