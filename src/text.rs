//! Splitting delimited text and handing each field to a caller's parser.
use vstd::prelude::*;
use vstd::string::StringSliceAdditionalSpecFns;
use vstd::utf8::{encode_utf8, encode_utf8_first_scalar};

verus! {

/// What each of a sequence of byte vectors holds.
pub open spec fn views(v: Seq<Vec<u8>>) -> Seq<Seq<u8>> {
    v.map_values(|f: Vec<u8>| f@)
}

/// Prepends `p` to the first of `parts`.
pub open spec fn extend_first(p: Seq<u8>, parts: Seq<Seq<u8>>) -> Seq<Seq<u8>> {
    parts.update(0, p + parts[0])
}

/// The fields of `s` between non-overlapping occurrences of the non-empty
/// byte string `sep`, matched from the left; `s` without any occurrence is a
/// single field. Splitting on an empty separator goes by characters, which
/// bytes alone do not show: see `str_split`.
pub open spec fn split_on(s: Seq<u8>, sep: Seq<u8>) -> Seq<Seq<u8>>
    decreases s.len(),
{
    if sep.len() == 0 || s.len() < sep.len() {
        seq![s]
    } else if s.take(sep.len() as int) == sep {
        seq![Seq::<u8>::empty()] + split_on(s.skip(sep.len() as int), sep)
    } else {
        extend_first(seq![s[0]], split_on(s.skip(1), sep))
    }
}

proof fn lemma_split_nonempty(s: Seq<u8>, sep: Seq<u8>)
    ensures
        split_on(s, sep).len() >= 1,
    decreases s.len(),
{
    if sep.len() == 0 || s.len() < sep.len() {
    } else if s.take(sep.len() as int) == sep {
    } else {
        lemma_split_nonempty(s.skip(1), sep);
    }
}

/// Copies `s[lo..hi]` into a new vector.
pub(crate) fn copy_range(s: &[u8], lo: usize, hi: usize) -> (r: Vec<u8>)
    requires
        lo <= hi <= s@.len(),
    ensures
        r@ == s@.subrange(lo as int, hi as int),
{
    let mut r: Vec<u8> = Vec::new();
    let mut i: usize = lo;
    while i < hi
        invariant
            lo <= i <= hi <= s@.len(),
            r@ == s@.subrange(lo as int, i as int),
        decreases hi - i,
    {
        r.push(s[i]);
        i = i + 1;
    }
    r
}

/// Whether `sep` occurs in `s` at position `at`.
pub(crate) fn occurs_at(s: &[u8], sep: &[u8], at: usize) -> (r: bool)
    requires
        at + sep@.len() <= s@.len(),
    ensures
        r == (s@.subrange(at as int, at + sep@.len()) == sep@),
{
    let n = s.len();
    let mut j: usize = 0;
    while j < sep.len()
        invariant
            n == s@.len(),
            at + sep@.len() <= s@.len(),
            j <= sep@.len(),
            forall|t: int| 0 <= t < j ==> s@[at + t] == sep@[t],
        decreases sep@.len() - j,
    {
        if s[at + j] != sep[j] {
            assert(s@.subrange(at as int, at + sep@.len())[j as int] != sep@[j as int]);
            return false;
        }
        j = j + 1;
    }
    assert(s@.subrange(at as int, at + sep@.len()) =~= sep@);
    true
}

/// Splits `s` at each occurrence of the non-empty separator `sep`.
pub(crate) fn split_bytes(s: &[u8], sep: &[u8]) -> (r: Vec<Vec<u8>>)
    requires
        sep@.len() > 0,
    ensures
        views(r@) == split_on(s@, sep@),
{
    let n = s.len();
    let m = sep.len();
    let mut out: Vec<Vec<u8>> = Vec::new();
    let mut start: usize = 0;
    let mut i: usize = 0;
    proof {
        lemma_split_nonempty(s@, sep@);
        assert(s@.skip(0) =~= s@);
        let whole = split_on(s@, sep@);
        assert(extend_first(s@.subrange(0, 0), whole) =~= whole) by {
            assert(s@.subrange(0, 0) + whole[0] =~= whole[0]);
        }
        assert(views(out@) + whole =~= whole);
    }
    while m <= n - i
        invariant
            n == s@.len(),
            m == sep@.len(),
            m > 0,
            start <= i <= n,
            split_on(s@, sep@) == views(out@) + extend_first(
                s@.subrange(start as int, i as int),
                split_on(s@.skip(i as int), sep@),
            ),
        decreases n - i,
    {
        let ghost rest = s@.skip(i as int);
        assert(rest.take(m as int) =~= s@.subrange(i as int, i + m));
        if occurs_at(s, sep, i) {
            let field = copy_range(s, start, i);
            assert(rest.skip(m as int) =~= s@.skip(i + m));
            proof {
                lemma_split_nonempty(s@.skip(i + m), sep@);
            }
            let ghost tail = split_on(s@.skip(i + m), sep@);
            assert(extend_first(Seq::<u8>::empty(), tail) =~= tail) by {
                assert(Seq::<u8>::empty() + tail[0] =~= tail[0]);
            }
            assert(extend_first(s@.subrange(start as int, i as int), seq![Seq::<u8>::empty()] + tail)
                =~= seq![field@] + tail) by {
                assert(s@.subrange(start as int, i as int) + Seq::<u8>::empty() =~= field@);
            }
            let ghost prev = views(out@);
            out.push(field);
            assert(views(out@) =~= prev.push(field@));
            assert(prev + (seq![field@] + tail) =~= prev.push(field@) + tail);
            i = i + m;
            start = i;
        } else {
            assert(rest.skip(1) =~= s@.skip(i + 1));
            proof {
                lemma_split_nonempty(s@.skip(i + 1), sep@);
            }
            let ghost tail = split_on(s@.skip(i + 1), sep@);
            assert(extend_first(s@.subrange(start as int, i as int), extend_first(seq![s@[i as int]], tail))
                =~= extend_first(s@.subrange(start as int, i + 1), tail)) by {
                assert(s@.subrange(start as int, i as int) + (seq![s@[i as int]] + tail[0])
                    =~= s@.subrange(start as int, i + 1) + tail[0]);
            }
            i = i + 1;
        }
    }
    assert(s@.skip(i as int).len() < m);
    let field = copy_range(s, start, n);
    assert(extend_first(s@.subrange(start as int, i as int), seq![s@.skip(i as int)])
        =~= seq![field@]) by {
        assert(s@.subrange(start as int, i as int) + s@.skip(i as int) =~= field@);
    }
    let ghost prev = views(out@);
    out.push(field);
    assert(views(out@) =~= prev.push(field@));
    assert(prev + seq![field@] =~= prev.push(field@));
    out
}

} // verus!

verus! {

/// The UTF-8 bytes of each character of `s`, one piece per character.
pub open spec fn char_pieces(s: Seq<char>) -> Seq<Seq<u8>> {
    s.map_values(|c: char| encode_utf8(seq![c]))
}

/// The fields of `s` between occurrences of `sep`, as `str::split` gives
/// them, each as its UTF-8 bytes. An empty separator matches before and
/// after every character.
pub open spec fn str_split(s: Seq<char>, sep: Seq<char>) -> Seq<Seq<u8>> {
    if sep.len() == 0 {
        seq![Seq::<u8>::empty()] + char_pieces(s) + seq![Seq::<u8>::empty()]
    } else {
        split_on(encode_utf8(s), encode_utf8(sep))
    }
}

proof fn lemma_encode_nonempty(s: Seq<char>)
    requires
        s.len() > 0,
    ensures
        encode_utf8(s).len() > 0,
{
    encode_utf8_first_scalar(s);
}

/// The byte length of the character that starts with `b`.
fn char_width(b: u8) -> (w: usize)
    ensures
        w == vstd::utf8::length_of_first_codepoint(seq![b]),
{
    if b <= 0x7f {
        1
    } else if 0xc0 <= b && b <= 0xdf {
        2
    } else if 0xe0 <= b && b <= 0xef {
        3
    } else {
        4
    }
}

/// An empty field, one field per character, and an empty field.
fn split_chars(s: &str) -> (r: Vec<Vec<u8>>)
    ensures
        views(r@) == seq![Seq::<u8>::empty()] + char_pieces(s@) + seq![Seq::<u8>::empty()],
{
    let b = s.as_bytes();
    let n = b.len();
    let mut out: Vec<Vec<u8>> = Vec::new();
    out.push(Vec::new());
    let ghost mut k: int = 0;
    let mut i: usize = 0;
    assert(s@.skip(0) =~= s@);
    assert(b@ == encode_utf8(s@));
    assert(b@.skip(0) =~= b@);
    assert(views(out@) =~= seq![Seq::<u8>::empty()] + char_pieces(s@.take(0)));
    while i < n
        invariant
            n == b@.len(),
            i <= n,
            0 <= k <= s@.len(),
            b@.skip(i as int) == encode_utf8(s@.skip(k)),
            views(out@) == seq![Seq::<u8>::empty()] + char_pieces(s@.take(k)),
        decreases n - i,
    {
        let ghost cs = s@.skip(k);
        proof {
            if cs.len() == 0 {
                assert(encode_utf8(cs).len() == 0);
            }
        }
        proof {
            encode_utf8_first_scalar(cs);
        }
        let ghost first = vstd::utf8::encode_scalar(cs[0] as u32);
        assert(encode_utf8(cs) == first + encode_utf8(cs.drop_first()));
        let w = char_width(b[i]);
        assert(encode_utf8(cs)[0] == b@[i as int]);
        assert(w == first.len());
        assert(b@.subrange(i as int, i + w) =~= first);
        let piece = copy_range(b, i, i + w);
        assert(encode_utf8(seq![cs[0]]) =~= first) by {
            let one = seq![cs[0]];
            assert(one.drop_first() =~= Seq::<char>::empty());
            assert(encode_utf8(one.drop_first()) == Seq::<u8>::empty());
            assert(one[0] == cs[0]);
            assert(encode_utf8(one) == vstd::utf8::encode_scalar(one[0] as u32) + encode_utf8(
                one.drop_first(),
            ));
        }
        let ghost prev = views(out@);
        out.push(piece);
        assert(views(out@) =~= prev.push(piece@));
        assert(s@.take(k + 1) =~= s@.take(k).push(cs[0]));
        assert(char_pieces(s@.take(k + 1)) =~= char_pieces(s@.take(k)).push(encode_utf8(seq![cs[0]])));
        assert(b@.skip(i + w) =~= encode_utf8(cs.drop_first())) by {
            assert(b@.skip(i + w) =~= encode_utf8(cs).skip(w as int));
        }
        assert(cs.drop_first() =~= s@.skip(k + 1));
        i = i + w;
        proof {
            k = k + 1;
        }
    }
    proof {
        if k < s@.len() {
            lemma_encode_nonempty(s@.skip(k));
        }
        assert(s@.take(k) =~= s@);
    }
    let ghost prev = views(out@);
    out.push(Vec::new());
    assert(views(out@) =~= prev.push(Seq::<u8>::empty()));
    out
}

/// Splits `s` at each occurrence of `sep`, as `str::split` does, giving the
/// bytes of each field.
pub fn split_str(s: &str, sep: &str) -> (r: Vec<Vec<u8>>)
    ensures
        views(r@) == str_split(s@, sep@),
{
    if sep.is_empty() {
        split_chars(s)
    } else {
        proof {
            lemma_encode_nonempty(sep@);
        }
        split_bytes(s.as_bytes(), sep.as_bytes())
    }
}

} // verus!

verus! {

/// Whether the caller's parser may turn `field` into `out`.
pub open spec fn parsed_as<F, E, P: Fn(&[u8]) -> Result<F, E>>(
    parse: P,
    field: Seq<u8>,
    out: Result<F, E>,
) -> bool {
    exists|b: &[u8]| b@ == field && parse.ensures((b,), out)
}

/// Whether the caller's parser may accept `field`.
pub open spec fn parses<F, E, P: Fn(&[u8]) -> Result<F, E>>(parse: P, field: Seq<u8>) -> bool {
    exists|x: F| parsed_as(parse, field, Ok(x))
}

/// Hands each of `fields` to `parse`, stopping at the first error, which
/// comes back with the index of its field.
pub fn parse_fields<F, E, P: Fn(&[u8]) -> Result<F, E>>(
    fields: &Vec<Vec<u8>>,
    parse: &P,
) -> (r: Result<Vec<F>, (usize, E)>)
    requires
        forall|b: &[u8]| parse.requires((b,)),
    ensures
        match r {
            Ok(v) => v@.len() == fields@.len() && forall|i: int|
                0 <= i < v@.len() ==> parsed_as(*parse, fields@[i]@, Ok(v@[i])),
            Err((k, e)) => k < fields@.len() && parsed_as(*parse, fields@[k as int]@, Err(e))
                && forall|i: int|
                0 <= i < k ==> #[trigger] parses(*parse, fields@[i]@),
        },
{
    let mut out: Vec<F> = Vec::new();
    let mut i: usize = 0;
    while i < fields.len()
        invariant
            i <= fields@.len(),
            forall|b: &[u8]| parse.requires((b,)),
            out@.len() == i,
            forall|j: int| 0 <= j < i ==> parsed_as(*parse, fields@[j]@, Ok(out@[j])),
        decreases fields@.len() - i,
    {
        let b: &[u8] = fields[i].as_slice();
        match parse(b) {
            Ok(x) => {
                out.push(x);
            },
            Err(e) => {
                assert forall|j: int| 0 <= j < i implies #[trigger] parses(*parse, fields@[j]@) by {
                    assert(parsed_as(*parse, fields@[j]@, Ok(out@[j])));
                }
                return Err((i, e));
            },
        }
        i = i + 1;
    }
    Ok(out)
}

} // verus!

verus! {

/// Splits `s` at each occurrence of `sep`, as `str::split` does, and parses
/// every field with `parse`; the first field that does not parse ends the
/// work with its error.
pub fn str_to_vector<F, E, P: Fn(&[u8]) -> Result<F, E>>(s: &str, sep: &str, parse: P) -> (r:
    Result<Vec<F>, E>)
    requires
        forall|b: &[u8]| parse.requires((b,)),
    ensures
        ({
            let fields = str_split(s@, sep@);
            match r {
                Ok(v) => v@.len() == fields.len() && forall|i: int|
                    0 <= i < v@.len() ==> parsed_as(parse, fields[i], Ok(v@[i])),
                Err(e) => exists|k: int|
                    0 <= k < fields.len() && parsed_as(parse, fields[k], Err(e)) && forall|i: int|
                        0 <= i < k ==> #[trigger] parses(parse, fields[i]),
            }
        }),
{
    let fields = split_str(s, sep);
    let ghost views = views(fields@);
    assert forall|i: int| 0 <= i < fields@.len() implies fields@[i]@ == views[i] by {}
    match parse_fields(&fields, &parse) {
        Ok(v) => Ok(v),
        Err((k, e)) => {
            assert(parsed_as(parse, views[k as int], Err(e)));
            Err(e)
        },
    }
}

} // verus!

verus! {

/// A field that the caller's parser refused: its line, its column within the
/// line, and the parser's error.
#[derive(Debug)]
pub struct FieldError<E> {
    pub line: usize,
    pub column: usize,
    pub error: E,
}

pub open spec fn newline() -> Seq<u8> {
    seq![10u8]
}

pub open spec fn comma() -> Seq<u8> {
    seq![44u8]
}

/// The lines of a text, split at each `\n`.
pub open spec fn lines_of(raw: Seq<u8>) -> Seq<Seq<u8>> {
    split_on(raw, newline())
}

/// The comma-separated fields of one line.
pub open spec fn fields_of(line: Seq<u8>) -> Seq<Seq<u8>> {
    split_on(line, comma())
}

pub open spec fn nonblank() -> spec_fn(Seq<u8>) -> bool {
    |l: Seq<u8>| l.len() > 0
}

/// Whether line `i` holds data: it is not empty, and it is not the first line
/// when the first line is a header.
pub open spec fn is_data_line(lines: Seq<Seq<u8>>, i: int, with_header: bool) -> bool {
    !(i == 0 && with_header) && lines[i].len() > 0
}

/// The lines that hold data, in order.
pub open spec fn data_lines(lines: Seq<Seq<u8>>, with_header: bool) -> Seq<Seq<u8>> {
    lines.skip(if with_header { 1 } else { 0 }).filter(nonblank())
}

pub(crate) proof fn lemma_filter_extend<A>(l: Seq<A>, lo: int, i: int, p: spec_fn(A) -> bool)
    requires
        0 <= lo <= i < l.len(),
    ensures
        l.subrange(lo, i + 1).filter(p) == if p(l[i]) {
            l.subrange(lo, i).filter(p).push(l[i])
        } else {
            l.subrange(lo, i).filter(p)
        },
{
    reveal(Seq::filter);
    assert(l.subrange(lo, i + 1).drop_last() =~= l.subrange(lo, i));
}

proof fn lemma_views_of(v: Seq<Vec<u8>>)
    ensures
        views(v).len() == v.len(),
        forall|i: int| 0 <= i < v.len() ==> v[i]@ == #[trigger] views(v)[i],
{
}

/// Reads one value per data line; an empty line is passed over, and so is
/// the first line when `with_header` holds.
pub fn to_vector<F, E, P: Fn(&[u8]) -> Result<F, E>>(raw_inputs: &str, with_header: bool, parse: P) -> (r:
    Result<Vec<F>, FieldError<E>>)
    requires
        forall|b: &[u8]| parse.requires((b,)),
    ensures
        ({
            let lines = lines_of(raw_inputs.spec_bytes());
            let data = data_lines(lines, with_header);
            match r {
                Ok(v) => v@.len() == data.len() && forall|i: int|
                    0 <= i < v@.len() ==> parsed_as(parse, data[i], Ok(v@[i])),
                Err(e) => e.line < lines.len() && e.column == 0 && is_data_line(
                    lines,
                    e.line as int,
                    with_header,
                ) && parsed_as(parse, lines[e.line as int], Err(e.error)) && forall|j: int|
                    0 <= j < e.line && is_data_line(lines, j, with_header) ==> #[trigger] parses(
                        parse,
                        lines[j],
                    ),
            }
        }),
{
    let nl: Vec<u8> = vec![10u8];
    let lines = split_bytes(raw_inputs.as_bytes(), nl.as_slice());
    let ghost ls = views(lines@);
    proof {
        lemma_views_of(lines@);
        lemma_split_nonempty(raw_inputs.spec_bytes(), newline());
        assert(nl@ =~= newline());
    }
    let start: usize = if with_header { 1 } else { 0 };
    let mut out: Vec<F> = Vec::new();
    let mut i: usize = start;
    while i < lines.len()
        invariant
            ls == lines_of(raw_inputs.spec_bytes()),
            ls.len() == lines@.len(),
            forall|k: int| 0 <= k < lines@.len() ==> lines@[k]@ == #[trigger] ls[k],
            start == (if with_header { 1usize } else { 0usize }),
            start <= i <= lines@.len(),
            forall|b: &[u8]| parse.requires((b,)),
            out@.len() == ls.subrange(start as int, i as int).filter(nonblank()).len(),
            forall|k: int|
                0 <= k < out@.len() ==> parsed_as(
                    parse,
                    ls.subrange(start as int, i as int).filter(nonblank())[k],
                    Ok(out@[k]),
                ),
            forall|j: int|
                0 <= j < i && is_data_line(ls, j, with_header) ==> #[trigger] parses(parse, ls[j]),
        decreases lines@.len() - i,
    {
        proof {
            lemma_filter_extend(ls, start as int, i as int, nonblank());
        }
        let line = lines[i].as_slice();
        if line.len() > 0 {
            let res = parse(line);
            assert(line@ == ls[i as int]);
            match res {
                Ok(x) => {
                    assert(parsed_as(parse, ls[i as int], Ok(x)));
                    out.push(x);
                },
                Err(e) => {
                    return Err(FieldError { line: i, column: 0, error: e });
                },
            }
        }
        i = i + 1;
    }
    assert(ls.subrange(start as int, i as int) =~= ls.skip(start as int));
    Ok(out)
}

} // verus!

verus! {

/// The field of a line that holds column `c` of a row once the field at
/// `ycol` is held out.
pub open spec fn source_column(c: int, ycol: int) -> int {
    if c < ycol {
        c
    } else {
        c + 1
    }
}

/// Whether every one of `fields` may be accepted by the parser.
pub open spec fn row_parses<F, E, P: Fn(&[u8]) -> Result<F, E>>(
    parse: P,
    fields: Seq<Seq<u8>>,
) -> bool {
    forall|c: int| 0 <= c < fields.len() ==> #[trigger] parses(parse, fields[c])
}

/// Whether `row` may be what the parser makes of `fields` without the field
/// at `ycol`.
pub open spec fn row_parsed_as<F, E, P: Fn(&[u8]) -> Result<F, E>>(
    parse: P,
    fields: Seq<Seq<u8>>,
    ycol: int,
    row: Seq<F>,
) -> bool {
    &&& row.len() == fields.len() - (if ycol < fields.len() { 1int } else { 0int })
    &&& forall|c: int|
        0 <= c < row.len() ==> parsed_as(parse, fields[source_column(c, ycol)], Ok(#[trigger] row[c]))
}

/// Parses every field of one line, holding out the one at `ycol` as the
/// line's label.
fn parse_row<F, E, P: Fn(&[u8]) -> Result<F, E>>(
    fields: &Vec<Vec<u8>>,
    ycol: usize,
    parse: &P,
) -> (r: Result<(Vec<F>, Option<F>), (usize, E)>)
    requires
        forall|b: &[u8]| parse.requires((b,)),
    ensures
        match r {
            Ok((row, label)) => {
                &&& row_parsed_as(*parse, views(fields@), ycol as int, row@)
                &&& row_parses(*parse, views(fields@))
                &&& (label is Some <==> ycol < fields@.len())
                &&& (label matches Some(y) ==> parsed_as(*parse, fields@[ycol as int]@, Ok(y)))
            },
            Err((k, e)) => k < fields@.len() && parsed_as(*parse, fields@[k as int]@, Err(e))
                && forall|j: int| 0 <= j < k ==> #[trigger] parses(*parse, fields@[j]@),
        },
{
    proof {
        lemma_views_of(fields@);
    }
    let mut row: Vec<F> = Vec::new();
    let mut label: Option<F> = None;
    let mut i: usize = 0;
    while i < fields.len()
        invariant
            i <= fields@.len(),
            forall|b: &[u8]| parse.requires((b,)),
            row@.len() == i - (if ycol < i { 1int } else { 0int }),
            forall|c: int|
                0 <= c < row@.len() ==> parsed_as(
                    *parse,
                    fields@[source_column(c, ycol as int)]@,
                    Ok(#[trigger] row@[c]),
                ),
            label is Some <==> ycol < i,
            label matches Some(y) ==> parsed_as(*parse, fields@[ycol as int]@, Ok(y)),
            forall|j: int| 0 <= j < i ==> #[trigger] parses(*parse, fields@[j]@),
        decreases fields@.len() - i,
    {
        let b = fields[i].as_slice();
        let res = parse(b);
        match res {
            Ok(x) => {
                assert(parsed_as(*parse, fields@[i as int]@, Ok(x)));
                if i == ycol {
                    label = Some(x);
                } else {
                    assert(source_column(row@.len() as int, ycol as int) == i);
                    row.push(x);
                }
            },
            Err(e) => {
                assert(parsed_as(*parse, fields@[i as int]@, Err(e)));
                return Err((i, e));
            },
        }
        i = i + 1;
    }
    assert forall|c: int| 0 <= c < views(fields@).len() implies #[trigger] parses(
        *parse,
        views(fields@)[c],
    ) by {
        assert(parses(*parse, fields@[c]@));
    }
    Ok((row, label))
}

} // verus!

verus! {

/// Data lines that have a field at column `c`.
pub open spec fn labelled(c: int) -> spec_fn(Seq<u8>) -> bool {
    |l: Seq<u8>| l.len() > 0 && fields_of(l).len() > c
}

/// Reads a table of comma-separated values, one row per data line. The field
/// at `ycol`, where a line has one, is held out of its row and becomes the
/// next label.
pub fn to_matrix<F, E, P: Fn(&[u8]) -> Result<F, E>>(
    raw_inputs: &str,
    ycol: usize,
    with_header: bool,
    parse: P,
) -> (r: Result<(Vec<Vec<F>>, Vec<F>), FieldError<E>>)
    requires
        forall|b: &[u8]| parse.requires((b,)),
    ensures
        ({
            let lines = lines_of(raw_inputs.spec_bytes());
            let data = data_lines(lines, with_header);
            let with_label = lines.skip(if with_header { 1 } else { 0 }).filter(
                labelled(ycol as int),
            );
            match r {
                Ok((x, y)) => {
                    &&& x@.len() == data.len()
                    &&& forall|k: int|
                        0 <= k < x@.len() ==> row_parsed_as(
                            parse,
                            fields_of(data[k]),
                            ycol as int,
                            #[trigger] x@[k]@,
                        )
                    &&& y@.len() == with_label.len()
                    &&& forall|k: int|
                        0 <= k < y@.len() ==> parsed_as(
                            parse,
                            fields_of(with_label[k])[ycol as int],
                            Ok(#[trigger] y@[k]),
                        )
                },
                Err(e) => {
                    &&& e.line < lines.len()
                    &&& is_data_line(lines, e.line as int, with_header)
                    &&& e.column < fields_of(lines[e.line as int]).len()
                    &&& parsed_as(
                        parse,
                        fields_of(lines[e.line as int])[e.column as int],
                        Err(e.error),
                    )
                    &&& forall|c: int|
                        0 <= c < e.column ==> #[trigger] parses(
                            parse,
                            fields_of(lines[e.line as int])[c],
                        )
                    &&& forall|j: int|
                        0 <= j < e.line && is_data_line(lines, j, with_header) ==> row_parses(
                            parse,
                            #[trigger] fields_of(lines[j]),
                        )
                },
            }
        }),
{
    let nl: Vec<u8> = vec![10u8];
    let cm: Vec<u8> = vec![44u8];
    let lines = split_bytes(raw_inputs.as_bytes(), nl.as_slice());
    let ghost ls = views(lines@);
    proof {
        lemma_views_of(lines@);
        lemma_split_nonempty(raw_inputs.spec_bytes(), newline());
        assert(nl@ =~= newline());
        assert(cm@ =~= comma());
    }
    let start: usize = if with_header { 1 } else { 0 };
    let mut xdata: Vec<Vec<F>> = Vec::new();
    let mut ydata: Vec<F> = Vec::new();
    let mut i: usize = start;
    while i < lines.len()
        invariant
            ls == lines_of(raw_inputs.spec_bytes()),
            ls.len() == lines@.len(),
            forall|k: int| 0 <= k < lines@.len() ==> lines@[k]@ == #[trigger] ls[k],
            cm@ == comma(),
            start == (if with_header { 1usize } else { 0usize }),
            start <= i <= lines@.len(),
            forall|b: &[u8]| parse.requires((b,)),
            xdata@.len() == ls.subrange(start as int, i as int).filter(nonblank()).len(),
            forall|k: int|
                0 <= k < xdata@.len() ==> row_parsed_as(
                    parse,
                    fields_of(ls.subrange(start as int, i as int).filter(nonblank())[k]),
                    ycol as int,
                    #[trigger] xdata@[k]@,
                ),
            ydata@.len() == ls.subrange(start as int, i as int).filter(labelled(ycol as int)).len(),
            forall|k: int|
                0 <= k < ydata@.len() ==> parsed_as(
                    parse,
                    fields_of(
                        ls.subrange(start as int, i as int).filter(labelled(ycol as int))[k],
                    )[ycol as int],
                    Ok(#[trigger] ydata@[k]),
                ),
            forall|j: int|
                0 <= j < i && is_data_line(ls, j, with_header) ==> row_parses(
                    parse,
                    #[trigger] fields_of(ls[j]),
                ),
        decreases lines@.len() - i,
    {
        proof {
            lemma_filter_extend(ls, start as int, i as int, nonblank());
            lemma_filter_extend(ls, start as int, i as int, labelled(ycol as int));
        }
        let line = lines[i].as_slice();
        if line.len() > 0 {
            let fields = split_bytes(line, cm.as_slice());
            assert(views(fields@) == fields_of(ls[i as int]));
            match parse_row(&fields, ycol, &parse) {
                Ok((row, label)) => {
                    xdata.push(row);
                    match label {
                        Some(y) => {
                            ydata.push(y);
                        },
                        None => {},
                    }
                },
                Err((c, e)) => {
                    proof {
                        lemma_views_of(fields@);
                        assert forall|k: int| 0 <= k < c implies #[trigger] parses(
                            parse,
                            fields_of(ls[i as int])[k],
                        ) by {
                            assert(parses(parse, fields@[k]@));
                        }
                    }
                    return Err(FieldError { line: i, column: c, error: e });
                },
            }
        }
        i = i + 1;
    }
    assert(ls.subrange(start as int, i as int) =~= ls.skip(start as int));
    Ok((xdata, ydata))
}

} // verus!

verus! {

/// Lines of exactly two fields.
pub open spec fn pair_line() -> spec_fn(Seq<u8>) -> bool {
    |l: Seq<u8>| l.len() > 0 && fields_of(l).len() == 2
}

/// Lines that are neither empty nor of two fields.
pub open spec fn misshapen(l: Seq<u8>) -> bool {
    l.len() > 0 && fields_of(l).len() != 2
}

/// Whether a non-empty line may be passed over: it does not have two fields,
/// or one of its two fields may fail to parse.
pub open spec fn rejected<F, E, P: Fn(&[u8]) -> Result<F, E>>(parse: P, l: Seq<u8>) -> bool {
    l.len() > 0 && (fields_of(l).len() != 2 || exists|c: int, e: E|
        0 <= c < 2 && #[trigger] parsed_as(parse, fields_of(l)[c], Err(e)))
}

/// The non-empty lines whose index is not in `skipped`, in order.
pub open spec fn kept_lines(lines: Seq<Seq<u8>>, skipped: Seq<usize>) -> Seq<Seq<u8>>
    decreases lines.len(),
{
    if lines.len() == 0 {
        Seq::empty()
    } else {
        let before = kept_lines(lines.drop_last(), skipped);
        let i = lines.len() - 1;
        if lines[i].len() > 0 && !skipped.contains(i as usize) {
            before.push(lines[i])
        } else {
            before
        }
    }
}

proof fn lemma_kept_ignores_later(lines: Seq<Seq<u8>>, skipped: Seq<usize>, j: usize)
    requires
        j >= lines.len(),
    ensures
        kept_lines(lines, skipped.push(j)) == kept_lines(lines, skipped),
    decreases lines.len(),
{
    if lines.len() > 0 {
        lemma_kept_ignores_later(lines.drop_last(), skipped, j);
        let i = lines.len() - 1;
        assert(skipped.push(j).contains(i as usize) == skipped.contains(i as usize)) by {
            if skipped.push(j).contains(i as usize) {
                let t = choose|t: int|
                    0 <= t < skipped.push(j).len() && skipped.push(j)[t] == i as usize;
                if t < skipped.len() {
                    assert(skipped[t] == i as usize);
                }
            }
            if skipped.contains(i as usize) {
                let t = choose|t: int| 0 <= t < skipped.len() && skipped[t] == i as usize;
                assert(skipped.push(j)[t] == i as usize);
            }
        }
    }
}

/// Whether `v` may be what the parser makes of `kept`, one pair per line of
/// two fields.
pub open spec fn pairs_parsed_as<F, E, P: Fn(&[u8]) -> Result<F, E>>(
    parse: P,
    kept: Seq<Seq<u8>>,
    v: Seq<(F, F)>,
) -> bool {
    &&& v.len() == kept.len()
    &&& forall|k: int|
        0 <= k < v.len() ==> fields_of(#[trigger] kept[k]).len() == 2 && parsed_as(
            parse,
            fields_of(kept[k])[0],
            Ok(v[k].0),
        ) && parsed_as(parse, fields_of(kept[k])[1], Ok(v[k].1))
}

/// Reads `(prediction, label)` pairs, one per line of two comma-separated
/// fields that both parse. Empty lines are passed over; any other line that
/// does not give a pair is passed over too, and its index is returned beside
/// the pairs so that the caller can warn of it.
pub fn to_tuple<F, E, P: Fn(&[u8]) -> Result<F, E>>(input: &str, parse: P) -> (r: (
    Vec<(F, F)>,
    Vec<usize>,
))
    requires
        forall|b: &[u8]| parse.requires((b,)),
    ensures
        ({
            let lines = lines_of(input.spec_bytes());
            let (v, skipped) = r;
            &&& pairs_parsed_as(parse, kept_lines(lines, skipped@), v@)
            &&& forall|k: int|
                0 <= k < skipped@.len() ==> #[trigger] skipped@[k] < lines.len() && rejected(
                    parse,
                    lines[skipped@[k] as int],
                )
            &&& forall|k1: int, k2: int|
                0 <= k1 < k2 < skipped@.len() ==> skipped@[k1] < skipped@[k2]
            &&& forall|i: int|
                0 <= i < lines.len() && #[trigger] misshapen(lines[i]) ==> skipped@.contains(
                    i as usize,
                )
        }),
{
    let nl: Vec<u8> = vec![10u8];
    let cm: Vec<u8> = vec![44u8];
    let lines = split_bytes(input.as_bytes(), nl.as_slice());
    let ghost ls = views(lines@);
    proof {
        lemma_views_of(lines@);
        assert(nl@ =~= newline());
        assert(cm@ =~= comma());
        assert(ls.take(0) =~= Seq::<Seq<u8>>::empty());
    }
    let mut data: Vec<(F, F)> = Vec::new();
    let mut skipped: Vec<usize> = Vec::new();
    let mut i: usize = 0;
    while i < lines.len()
        invariant
            ls == lines_of(input.spec_bytes()),
            ls.len() == lines@.len(),
            forall|k: int| 0 <= k < lines@.len() ==> lines@[k]@ == #[trigger] ls[k],
            cm@ == comma(),
            i <= lines@.len(),
            forall|b: &[u8]| parse.requires((b,)),
            pairs_parsed_as(parse, kept_lines(ls.take(i as int), skipped@), data@),
            forall|k: int|
                0 <= k < skipped@.len() ==> #[trigger] skipped@[k] < i && rejected(
                    parse,
                    ls[skipped@[k] as int],
                ),
            forall|k1: int, k2: int| 0 <= k1 < k2 < skipped@.len() ==> skipped@[k1] < skipped@[k2],
            forall|j: int| 0 <= j < i && #[trigger] misshapen(ls[j]) ==> skipped@.contains(j as usize),
        decreases lines@.len() - i,
    {
        let ghost pre = ls.take(i as int);
        let ghost post = ls.take(i + 1);
        let ghost old_skipped = skipped@;
        let ghost old_data = data@;
        assert(post.drop_last() =~= pre);
        assert(post[i as int] == ls[i as int]);
        assert(!skipped@.contains(i)) by {
            if skipped@.contains(i) {
                let t = choose|t: int| 0 <= t < skipped@.len() && skipped@[t] == i;
                assert(skipped@[t] < i);
            }
        }
        let line = lines[i].as_slice();
        let mut keep = false;
        if line.len() > 0 {
            let fields = split_bytes(line, cm.as_slice());
            assert(views(fields@) == fields_of(ls[i as int]));
            proof {
                lemma_views_of(fields@);
            }
            if fields.len() == 2 {
                let r0 = parse(fields[0].as_slice());
                let r1 = parse(fields[1].as_slice());
                match (r0, r1) {
                    (Ok(a), Ok(b)) => {
                        assert(parsed_as(parse, fields@[0]@, Ok(a)));
                        assert(parsed_as(parse, fields@[1]@, Ok(b)));
                        data.push((a, b));
                        keep = true;
                    },
                    (Err(e), _) => {
                        assert(parsed_as(parse, fields_of(ls[i as int])[0], Err(e)));
                    },
                    (_, Err(e)) => {
                        assert(parsed_as(parse, fields_of(ls[i as int])[1], Err(e)));
                    },
                }
            }
        }
        if !keep && line.len() > 0 {
            let ghost before = skipped@;
            assert(rejected(parse, ls[i as int]));
            skipped.push(i);
            proof {
                lemma_kept_ignores_later(pre, before, i);
            }
            assert forall|j: int| 0 <= j < i + 1 && #[trigger] misshapen(ls[j]) implies skipped@.contains(
                j as usize,
            ) by {
                if j < i {
                    let w = choose|w: int| 0 <= w < before.len() && before[w] == j as usize;
                    assert(skipped@[w] == j as usize);
                } else {
                    assert(skipped@[before.len() as int] == i);
                }
            }
            assert(skipped@.contains(i)) by {
                assert(skipped@[before.len() as int] == i);
            }
        }
        proof {
            assert(kept_lines(pre, skipped@) == kept_lines(pre, old_skipped));
            if keep {
                let kept = kept_lines(pre, old_skipped);
                let kp = kept.push(ls[i as int]);
                assert(kept_lines(post, skipped@) == kp);
                assert forall|k: int| 0 <= k < data@.len() implies fields_of(#[trigger] kp[k]).len()
                    == 2 && parsed_as(parse, fields_of(kp[k])[0], Ok(data@[k].0)) && parsed_as(
                    parse,
                    fields_of(kp[k])[1],
                    Ok(data@[k].1),
                ) by {
                    if k < old_data.len() {
                        assert(data@[k] == old_data[k]);
                        assert(kp[k] == kept[k]);
                    }
                }
            }
        }
        i = i + 1;
    }
    assert(ls.take(i as int) =~= ls);
    (data, skipped)
}

} // verus!

