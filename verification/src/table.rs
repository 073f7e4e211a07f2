//! The delimited-table format used by the bulk transfer pipeline: rows of
//! fields, fields joined by commas, records closed by a line feed, and any
//! field holding a comma, quote or line break written quoted with its quotes
//! doubled. Encoding and parsing are both verified, and parsing an encoded
//! table is proved to return exactly the encoded rows.

use vstd::prelude::*;
use vstd::string::StrSliceExecFns;
use vstd::string::StringExecFns;

use crate::text::push_char;

verus! {

// ---------------------------------------------------------------------------
// Encoding, specified
// ---------------------------------------------------------------------------

/// A field must be written quoted when it holds a delimiter, a quote or a
/// line break.
pub open spec fn needs_quoting(f: Seq<char>) -> bool {
    exists|i: int|
        0 <= i < f.len() && ((#[trigger] f[i]) == ',' || f[i] == '"' || f[i] == '\n' || f[i]
            == '\r')
}

/// A quote written inside a quoted field is doubled; every other character
/// stands for itself.
pub open spec fn esc_char(c: char) -> Seq<char> {
    if c == '"' {
        seq!['"', '"']
    } else {
        seq![c]
    }
}

/// A field body with every quote doubled.
pub open spec fn escape_quotes(f: Seq<char>) -> Seq<char>
    decreases f.len(),
{
    if f.len() == 0 {
        Seq::empty()
    } else {
        esc_char(f[0]) + escape_quotes(f.skip(1))
    }
}

/// How one field is written: raw, or quoted with doubled quotes.
pub open spec fn encode_field(f: Seq<char>) -> Seq<char> {
    if needs_quoting(f) {
        seq!['"'] + escape_quotes(f) + seq!['"']
    } else {
        f
    }
}

/// How one record is written: fields joined by commas, closed by a line feed.
pub open spec fn encode_record(fs: Seq<Seq<char>>) -> Seq<char>
    decreases fs.len(),
{
    if fs.len() <= 1 {
        encode_field(if fs.len() == 0 {
            Seq::empty()
        } else {
            fs[0]
        }) + seq!['\n']
    } else {
        encode_field(fs[0]) + seq![','] + encode_record(fs.skip(1))
    }
}

/// How a table is written: its records one after the other.
pub open spec fn encode_table(rows: Seq<Seq<Seq<char>>>) -> Seq<char>
    decreases rows.len(),
{
    if rows.len() == 0 {
        Seq::empty()
    } else {
        encode_record(rows[0]) + encode_table(rows.skip(1))
    }
}

// ---------------------------------------------------------------------------
// Parsing, specified
// ---------------------------------------------------------------------------

/// A raw field: the characters up to the next comma or line feed. Quotes and
/// carriage returns may not appear raw. Returns the field and the count of
/// characters consumed.
pub open spec fn parse_raw(s: Seq<char>) -> Option<(Seq<char>, int)>
    decreases s.len(),
{
    if s.len() == 0 {
        Some((Seq::empty(), 0))
    } else if s[0] == ',' || s[0] == '\n' {
        Some((Seq::empty(), 0))
    } else if s[0] == '"' || s[0] == '\r' {
        None
    } else {
        match parse_raw(s.skip(1)) {
            Some(p) => Some((seq![s[0]] + p.0, p.1 + 1)),
            None => None,
        }
    }
}

/// A quoted field body, after its opening quote: a doubled quote stands for
/// one quote, a single quote closes the field. The consumed count includes
/// the closing quote.
pub open spec fn parse_quoted(s: Seq<char>) -> Option<(Seq<char>, int)>
    decreases s.len(),
{
    if s.len() == 0 {
        None
    } else if s[0] == '"' {
        if s.len() >= 2 && s[1] == '"' {
            match parse_quoted(s.skip(2)) {
                Some(p) => Some((seq!['"'] + p.0, p.1 + 2)),
                None => None,
            }
        } else {
            Some((Seq::empty(), 1))
        }
    } else {
        match parse_quoted(s.skip(1)) {
            Some(p) => Some((seq![s[0]] + p.0, p.1 + 1)),
            None => None,
        }
    }
}

/// One field: quoted when it opens with a quote, raw otherwise.
pub open spec fn parse_field(s: Seq<char>) -> Option<(Seq<char>, int)> {
    if s.len() > 0 && s[0] == '"' {
        match parse_quoted(s.skip(1)) {
            Some(p) => Some((p.0, p.1 + 1)),
            None => None,
        }
    } else {
        parse_raw(s)
    }
}

/// One record: fields separated by commas, closed by a line feed.
pub open spec fn parse_record(s: Seq<char>) -> Option<(Seq<Seq<char>>, int)>
    decreases s.len(),
{
    match parse_field(s) {
        None => None,
        Some(p) => {
            let f = p.0;
            let n = p.1;
            if !(0 <= n < s.len()) {
                None
            } else if s[n] == '\n' {
                Some((seq![f], n + 1))
            } else if s[n] == ',' {
                match parse_record(s.skip(n + 1)) {
                    None => None,
                    Some(q) => Some((seq![f] + q.0, n + 1 + q.1)),
                }
            } else {
                None
            }
        },
    }
}

/// A whole table: records until the input is exhausted.
pub open spec fn parse_table(s: Seq<char>) -> Option<Seq<Seq<Seq<char>>>>
    decreases s.len(),
{
    if s.len() == 0 {
        Some(Seq::empty())
    } else {
        match parse_record(s) {
            None => None,
            Some(p) => {
                if !(0 < p.1 <= s.len()) {
                    None
                } else {
                    match parse_table(s.skip(p.1)) {
                        None => None,
                        Some(rows) => Some(seq![p.0] + rows),
                    }
                }
            },
        }
    }
}

// ---------------------------------------------------------------------------
// Round trip: parsing an encoded table returns the encoded rows
// ---------------------------------------------------------------------------

/// A raw-encodable field followed by a delimiter parses back to itself.
proof fn lemma_parse_raw_encoded(f: Seq<char>, rest: Seq<char>)
    requires
        !needs_quoting(f),
        rest.len() > 0,
        rest[0] == ',' || rest[0] == '\n',
    ensures
        parse_raw(f + rest) == Some((f, f.len() as int)),
    decreases f.len(),
{
    let s = f + rest;
    if f.len() == 0 {
        assert(s =~= rest);
    } else {
        assert(s[0] == f[0]);
        assert(f[0] != ',' && f[0] != '\n' && f[0] != '"' && f[0] != '\r');
        assert(!needs_quoting(f.skip(1))) by {
            if needs_quoting(f.skip(1)) {
                let i = choose|i: int|
                    0 <= i < f.skip(1).len() && ((#[trigger] f.skip(1)[i]) == ',' || f.skip(1)[i]
                        == '"' || f.skip(1)[i] == '\n' || f.skip(1)[i] == '\r');
                assert(f[i + 1] == f.skip(1)[i]);
            }
        }
        lemma_parse_raw_encoded(f.skip(1), rest);
        assert(s.skip(1) =~= f.skip(1) + rest);
        assert(seq![f[0]] + f.skip(1) =~= f);
    }
}

/// An escaped field body, its closing quote, and what follows parse back to
/// the original body.
proof fn lemma_parse_quoted_encoded(f: Seq<char>, rest: Seq<char>)
    requires
        rest.len() == 0 || rest[0] != '"',
    ensures
        parse_quoted(escape_quotes(f) + seq!['"'] + rest) == Some(
            (f, escape_quotes(f).len() as int + 1),
        ),
    decreases f.len(),
{
    let s = escape_quotes(f) + seq!['"'] + rest;
    if f.len() == 0 {
        assert(s =~= seq!['"'] + rest);
        assert(s[0] == '"');
        if s.len() >= 2 {
            assert(s[1] == rest[0]);
        }
    } else {
        lemma_parse_quoted_encoded(f.skip(1), rest);
        if f[0] == '"' {
            assert(escape_quotes(f) =~= seq!['"', '"'] + escape_quotes(f.skip(1)));
            assert(s[0] == '"' && s[1] == '"');
            assert(s.len() >= 2);
            assert(s.skip(2) =~= escape_quotes(f.skip(1)) + seq!['"'] + rest);
            assert(seq!['"'] + f.skip(1) =~= f);
        } else {
            assert(escape_quotes(f) =~= seq![f[0]] + escape_quotes(f.skip(1)));
            assert(s[0] == f[0]);
            assert(s.skip(1) =~= escape_quotes(f.skip(1)) + seq!['"'] + rest);
            assert(seq![f[0]] + f.skip(1) =~= f);
        }
    }
}

/// An encoded field followed by a delimiter parses back to itself, consuming
/// exactly the encoding.
proof fn lemma_parse_field_encoded(f: Seq<char>, rest: Seq<char>)
    requires
        rest.len() > 0,
        rest[0] == ',' || rest[0] == '\n',
    ensures
        parse_field(encode_field(f) + rest) == Some((f, encode_field(f).len() as int)),
{
    let s = encode_field(f) + rest;
    if needs_quoting(f) {
        assert(encode_field(f) =~= seq!['"'] + (escape_quotes(f) + seq!['"']));
        assert(s[0] == '"');
        assert(s.skip(1) =~= escape_quotes(f) + seq!['"'] + rest);
        lemma_parse_quoted_encoded(f, rest);
    } else {
        if f.len() > 0 {
            assert(f[0] != '"');
            assert(s[0] == f[0]);
        } else {
            assert(s =~= rest);
        }
        lemma_parse_raw_encoded(f, rest);
    }
}

/// An encoded record followed by anything parses back to its fields,
/// consuming exactly the encoding.
pub proof fn lemma_parse_record_encoded(fs: Seq<Seq<char>>, rest: Seq<char>)
    requires
        fs.len() >= 1,
    ensures
        parse_record(encode_record(fs) + rest) == Some((fs, encode_record(fs).len() as int)),
    decreases fs.len(),
{
    let s = encode_record(fs) + rest;
    if fs.len() == 1 {
        assert(encode_record(fs) =~= encode_field(fs[0]) + seq!['\n']);
        assert(s =~= encode_field(fs[0]) + (seq!['\n'] + rest));
        lemma_parse_field_encoded(fs[0], seq!['\n'] + rest);
        let n = encode_field(fs[0]).len() as int;
        assert(s[n] == '\n');
        assert(seq![fs[0]] =~= fs);
    } else {
        assert(s =~= encode_field(fs[0]) + (seq![','] + (encode_record(fs.skip(1)) + rest)));
        lemma_parse_field_encoded(fs[0], seq![','] + (encode_record(fs.skip(1)) + rest));
        let n = encode_field(fs[0]).len() as int;
        assert(s[n] == ',');
        assert(s.skip(n + 1) =~= encode_record(fs.skip(1)) + rest);
        lemma_parse_record_encoded(fs.skip(1), rest);
        assert(seq![fs[0]] + fs.skip(1) =~= fs);
    }
}

/// An encoded record is never empty.
pub proof fn lemma_encode_record_len(fs: Seq<Seq<char>>)
    ensures
        encode_record(fs).len() >= 1,
    decreases fs.len(),
{
    if fs.len() > 1 {
        lemma_encode_record_len(fs.skip(1));
    }
}

/// Parsing an encoded table returns exactly the encoded rows, provided each
/// row has at least one field.
pub proof fn lemma_parse_table_encoded(rows: Seq<Seq<Seq<char>>>)
    requires
        forall|i: int| 0 <= i < rows.len() ==> (#[trigger] rows[i]).len() >= 1,
    ensures
        parse_table(encode_table(rows)) == Some(rows),
    decreases rows.len(),
{
    if rows.len() == 0 {
        assert(encode_table(rows) =~= Seq::<char>::empty());
    } else {
        let s = encode_table(rows);
        let enc0 = encode_record(rows[0]);
        lemma_encode_record_len(rows[0]);
        lemma_parse_record_encoded(rows[0], encode_table(rows.skip(1)));
        assert(s =~= enc0 + encode_table(rows.skip(1)));
        assert(s.len() > 0);
        assert(s.skip(enc0.len() as int) =~= encode_table(rows.skip(1)));
        lemma_parse_table_encoded(rows.skip(1));
        assert(seq![rows[0]] + rows.skip(1) =~= rows);
    }
}

// ---------------------------------------------------------------------------
// Encoding, executable
// ---------------------------------------------------------------------------

/// Whether the field must be written quoted.
fn needs_quoting_exec(f: &str) -> (r: bool)
    ensures
        r == needs_quoting(f@),
{
    let n = f.unicode_len();
    let mut i: usize = 0;
    while i < n
        invariant
            i <= n,
            n == f@.len(),
            forall|k: int|
                0 <= k < i ==> !((#[trigger] f@[k]) == ',' || f@[k] == '"' || f@[k] == '\n'
                    || f@[k] == '\r'),
        decreases n - i,
    {
        let c = f.get_char(i);
        if c == ',' || c == '"' || c == '\n' || c == '\r' {
            return true;
        }
        i += 1;
    }
    false
}

/// Appending one character extends the escaped body by that character's
/// escape.
proof fn lemma_escape_quotes_push(s: Seq<char>, c: char)
    ensures
        escape_quotes(s.push(c)) == escape_quotes(s) + esc_char(c),
    decreases s.len(),
{
    let t = s.push(c);
    if s.len() == 0 {
        assert(t.skip(1) =~= Seq::<char>::empty());
        assert(t[0] == c);
        assert(escape_quotes(t) == esc_char(c) + escape_quotes(t.skip(1)));
        assert(escape_quotes(Seq::<char>::empty()) == Seq::<char>::empty());
        assert(escape_quotes(s) == Seq::<char>::empty());
        assert(esc_char(c) + Seq::<char>::empty() =~= Seq::<char>::empty() + esc_char(c));
    } else {
        assert(t[0] == s[0]);
        assert(t.skip(1) =~= s.skip(1).push(c));
        lemma_escape_quotes_push(s.skip(1), c);
        assert(escape_quotes(t) == esc_char(s[0]) + (escape_quotes(s.skip(1)) + esc_char(c)));
        assert(escape_quotes(s) == esc_char(s[0]) + escape_quotes(s.skip(1)));
        assert(esc_char(s[0]) + (escape_quotes(s.skip(1)) + esc_char(c)) =~= (esc_char(s[0])
            + escape_quotes(s.skip(1))) + esc_char(c));
    }
}

/// Writes one encoded field onto `out`.
fn encode_field_onto(f: &str, out: &mut String)
    ensures
        final(out)@ == old(out)@ + encode_field(f@),
{
    if !needs_quoting_exec(f) {
        out.append(f);
        return ;
    }
    push_char(out, '"');
    let n = f.unicode_len();
    let mut i: usize = 0;
    while i < n
        invariant
            i <= n,
            n == f@.len(),
            out@ == old(out)@ + seq!['"'] + escape_quotes(f@.subrange(0, i as int)),
        decreases n - i,
    {
        let c = f.get_char(i);
        proof {
            lemma_escape_quotes_push(f@.subrange(0, i as int), c);
            assert(f@.subrange(0, i as int).push(c) =~= f@.subrange(0, i + 1));
        }
        if c == '"' {
            push_char(out, '"');
            push_char(out, '"');
        } else {
            push_char(out, c);
        }
        proof {
            assert(out@ =~= old(out)@ + seq!['"'] + escape_quotes(f@.subrange(0, i + 1)));
        }
        i += 1;
    }
    push_char(out, '"');
    proof {
        assert(f@.subrange(0, n as int) =~= f@);
        assert(out@ =~= old(out)@ + encode_field(f@));
    }
}

/// Writes one encoded record onto `out`, starting at field `i`.
fn encode_record_onto_from(fields: &Vec<String>, i: usize, out: &mut String)
    requires
        i < fields@.len(),
    ensures
        final(out)@ == old(out)@ + encode_record(fields.deep_view().skip(i as int)),
    decreases fields@.len() - i,
{
    let dvlen = fields.len();
    encode_field_onto(fields[i].as_str(), out);
    proof {
        assert(fields.deep_view().skip(i as int)[0] == fields.deep_view()[i as int]);
        assert(fields.deep_view()[i as int] == fields@[i as int]@);
    }
    if i + 1 == dvlen {
        push_char(out, '\n');
        proof {
            assert(fields.deep_view().skip(i as int).len() == 1);
            assert(out@ =~= old(out)@ + encode_record(fields.deep_view().skip(i as int)));
        }
    } else {
        push_char(out, ',');
        encode_record_onto_from(fields, i + 1, out);
        proof {
            assert(fields.deep_view().skip(i as int).skip(1) =~= fields.deep_view().skip(
                i + 1,
            ));
            assert(fields.deep_view().skip(i as int).len() > 1);
            assert(out@ =~= old(out)@ + encode_record(fields.deep_view().skip(i as int)));
        }
    }
}

/// Writes one encoded record onto `out`.
pub fn encode_record_onto(fields: &Vec<String>, out: &mut String)
    requires
        fields@.len() >= 1,
    ensures
        final(out)@ == old(out)@ + encode_record(fields.deep_view()),
{
    encode_record_onto_from(fields, 0, out);
    proof {
        assert(fields.deep_view().skip(0) =~= fields.deep_view());
    }
}

/// A table grown by one record is encoded as the table then the record.
pub proof fn lemma_encode_table_push(rows: Seq<Seq<Seq<char>>>, r: Seq<Seq<char>>)
    ensures
        encode_table(rows.push(r)) == encode_table(rows) + encode_record(r),
    decreases rows.len(),
{
    let t = rows.push(r);
    if rows.len() == 0 {
        assert(t.skip(1) =~= Seq::<Seq<Seq<char>>>::empty());
        assert(t[0] == r);
        assert(encode_table(t) == encode_record(r) + encode_table(t.skip(1)));
        assert(encode_table(Seq::<Seq<Seq<char>>>::empty()) == Seq::<char>::empty());
        assert(encode_record(r) + Seq::<char>::empty() =~= Seq::<char>::empty() + encode_record(
            r,
        ));
    } else {
        assert(t[0] == rows[0]);
        assert(t.skip(1) =~= rows.skip(1).push(r));
        lemma_encode_table_push(rows.skip(1), r);
        assert(encode_table(t) == encode_record(rows[0]) + (encode_table(rows.skip(1))
            + encode_record(r)));
        assert(encode_table(rows) == encode_record(rows[0]) + encode_table(rows.skip(1)));
        assert(encode_record(rows[0]) + (encode_table(rows.skip(1)) + encode_record(r)) =~= (
        encode_record(rows[0]) + encode_table(rows.skip(1))) + encode_record(r));
    }
}

/// Writes a whole encoded table onto `out`.
pub fn encode_table_onto(rows: &Vec<Vec<String>>, out: &mut String)
    requires
        forall|i: int| 0 <= i < rows@.len() ==> (#[trigger] rows@[i])@.len() >= 1,
    ensures
        final(out)@ == old(out)@ + encode_table(rows.deep_view()),
{
    let n = rows.len();
    let mut i: usize = 0;
    proof {
        assert(rows.deep_view().subrange(0, 0) =~= Seq::<Seq<Seq<char>>>::empty());
    }
    while i < n
        invariant
            i <= n,
            n == rows@.len(),
            rows.deep_view().len() == n,
            forall|k: int| 0 <= k < n ==> (#[trigger] rows@[k])@.len() >= 1,
            forall|k: int|
                0 <= k < n ==> (#[trigger] rows.deep_view()[k]) == rows@[k].deep_view(),
            out@ == old(out)@ + encode_table(rows.deep_view().subrange(0, i as int)),
        decreases n - i,
    {
        encode_record_onto(&rows[i], out);
        proof {
            lemma_encode_table_push(rows.deep_view().subrange(0, i as int), rows@[i as int].deep_view());
            assert(rows.deep_view().subrange(0, i as int).push(rows.deep_view()[i as int])
                =~= rows.deep_view().subrange(0, i + 1));
        }
        i += 1;
    }
    proof {
        assert(rows.deep_view().subrange(0, n as int) =~= rows.deep_view());
    }
}

// ---------------------------------------------------------------------------
// Parsing, executable
// ---------------------------------------------------------------------------

/// Parses a raw field at position `from`, appending its characters to `out`
/// and returning the consumed count.
fn parse_raw_exec(s: &str, from: usize, out: &mut String) -> (r: Option<usize>)
    requires
        from <= s@.len() <= usize::MAX,
    ensures
        match (r, parse_raw(s@.skip(from as int))) {
            (Some(n), Some(p)) => final(out)@ == old(out)@ + p.0 && n as int == p.1 && from + n
                <= s@.len(),
            (None, None) => true,
            _ => false,
        },
{
    let len = s.unicode_len();
    let mut j: usize = from;
    loop
        invariant
            from <= j <= len,
            len == s@.len() <= usize::MAX,
            out@ == old(out)@ + s@.subrange(from as int, j as int),
            ({
                match parse_raw(s@.skip(j as int)) {
                    Some(p) => parse_raw(s@.skip(from as int)) == Some(
                        (s@.subrange(from as int, j as int) + p.0, (j - from) + p.1),
                    ),
                    None => parse_raw(s@.skip(from as int)) is None,
                }
            }),
        decreases len - j,
    {
        if j == len {
            proof {
                assert(s@.skip(j as int) =~= Seq::<char>::empty());
                assert(parse_raw(s@.skip(j as int)) == Some((Seq::<char>::empty(), 0int)));
                assert(s@.subrange(from as int, j as int) + Seq::<char>::empty() =~= s@.subrange(
                    from as int,
                    j as int,
                ));
            }
            return Some(j - from);
        }
        let c = s.get_char(j);
        proof {
            assert(s@.skip(j as int)[0] == s@[j as int]);
            assert(s@.skip(j as int).len() > 0);
        }
        if c == ',' || c == '\n' {
            proof {
                assert(parse_raw(s@.skip(j as int)) == Some((Seq::<char>::empty(), 0int)));
                assert(s@.subrange(from as int, j as int) + Seq::<char>::empty() =~= s@.subrange(
                    from as int,
                    j as int,
                ));
            }
            return Some(j - from);
        }
        if c == '"' || c == '\r' {
            proof {
                assert(parse_raw(s@.skip(j as int)) is None);
            }
            return None;
        }
        push_char(out, c);
        proof {
            assert(s@.skip(j as int).skip(1) =~= s@.skip(j + 1));
            assert(s@.subrange(from as int, j as int).push(c) =~= s@.subrange(from as int, j + 1));
            match parse_raw(s@.skip(j + 1)) {
                Some(p) => {
                    assert(parse_raw(s@.skip(j as int)) == Some((seq![c] + p.0, p.1 + 1)));
                    assert(s@.subrange(from as int, j as int) + (seq![c] + p.0) =~= s@.subrange(
                        from as int,
                        j + 1,
                    ) + p.0);
                },
                None => {
                    assert(parse_raw(s@.skip(j as int)) is None);
                },
            }
        }
        j += 1;
    }
}

/// Parses a quoted field body at position `from` (just after the opening
/// quote), appending its characters to `out` and returning the consumed
/// count, closing quote included.
fn parse_quoted_exec(s: &str, from: usize, out: &mut String) -> (r: Option<usize>)
    requires
        from <= s@.len() <= usize::MAX,
    ensures
        match (r, parse_quoted(s@.skip(from as int))) {
            (Some(n), Some(p)) => final(out)@ == old(out)@ + p.0 && n as int == p.1 && from + n
                <= s@.len(),
            (None, None) => true,
            _ => false,
        },
{
    let len = s.unicode_len();
    let mut j: usize = from;
    let ghost mut acc: Seq<char> = Seq::empty();
    proof {
        assert(out@ =~= old(out)@ + acc);
    }
    loop
        invariant
            from <= j <= len,
            len == s@.len() <= usize::MAX,
            out@ == old(out)@ + acc,
            ({
                match parse_quoted(s@.skip(j as int)) {
                    Some(p) => parse_quoted(s@.skip(from as int)) == Some(
                        (acc + p.0, (j - from) + p.1),
                    ),
                    None => parse_quoted(s@.skip(from as int)) is None,
                }
            }),
        decreases len - j,
    {
        if j == len {
            proof {
                assert(s@.skip(j as int) =~= Seq::<char>::empty());
                assert(parse_quoted(s@.skip(j as int)) is None);
            }
            return None;
        }
        let c = s.get_char(j);
        proof {
            assert(s@.skip(j as int)[0] == s@[j as int]);
            assert(s@.skip(j as int).len() == len - j);
        }
        if c == '"' {
            if j + 1 < len && s.get_char(j + 1) == '"' {
                proof {
                    assert(s@.skip(j as int)[1] == s@[j + 1]);
                }
                push_char(out, '"');
                proof {
                    assert(s@.skip(j as int).skip(2) =~= s@.skip(j + 2));
                    match parse_quoted(s@.skip(j + 2)) {
                        Some(p) => {
                            assert(parse_quoted(s@.skip(j as int)) == Some(
                                (seq!['"'] + p.0, p.1 + 2),
                            ));
                            assert(acc + (seq!['"'] + p.0) =~= acc.push('"') + p.0);
                        },
                        None => {
                            assert(parse_quoted(s@.skip(j as int)) is None);
                        },
                    }
                    acc = acc.push('"');
                }
                j += 2;
            } else {
                proof {
                    if s@.skip(j as int).len() >= 2 {
                        assert(s@.skip(j as int)[1] == s@[j + 1]);
                    }
                    assert(parse_quoted(s@.skip(j as int)) == Some((Seq::<char>::empty(), 1int)));
                    assert(acc + Seq::<char>::empty() =~= acc);
                }
                return Some(j + 1 - from);
            }
        } else {
            push_char(out, c);
            proof {
                assert(s@.skip(j as int).skip(1) =~= s@.skip(j + 1));
                match parse_quoted(s@.skip(j + 1)) {
                    Some(p) => {
                        assert(parse_quoted(s@.skip(j as int)) == Some((seq![c] + p.0, p.1 + 1)));
                        assert(acc + (seq![c] + p.0) =~= acc.push(c) + p.0);
                    },
                    None => {
                        assert(parse_quoted(s@.skip(j as int)) is None);
                    },
                }
                acc = acc.push(c);
            }
            j += 1;
        }
    }
}

/// Parses one field at position `from`, appending its characters to `out`
/// and returning the consumed count.
fn parse_field_exec(s: &str, from: usize, out: &mut String) -> (r: Option<usize>)
    requires
        from <= s@.len() <= usize::MAX,
    ensures
        match (r, parse_field(s@.skip(from as int))) {
            (Some(n), Some(p)) => final(out)@ == old(out)@ + p.0 && n as int == p.1 && from + n
                <= s@.len(),
            (None, None) => true,
            _ => false,
        },
{
    let len = s.unicode_len();
    if from < len && s.get_char(from) == '"' {
        proof {
            assert(s@.skip(from as int)[0] == s@[from as int]);
            assert(s@.skip(from as int).skip(1) =~= s@.skip(from + 1));
        }
        match parse_quoted_exec(s, from + 1, out) {
            Some(n) => Some(n + 1),
            None => None,
        }
    } else {
        proof {
            if from < len {
                assert(s@.skip(from as int)[0] == s@[from as int]);
            } else {
                assert(s@.skip(from as int).len() == 0);
            }
        }
        parse_raw_exec(s, from, out)
    }
}

/// Parses one record at position `from`: its fields and the consumed count.
pub(crate) fn parse_record_exec(s: &str, from: usize) -> (r: Option<(Vec<String>, usize)>)
    requires
        from <= s@.len() <= usize::MAX,
    ensures
        match (r, parse_record(s@.skip(from as int))) {
            (Some((fs, n)), Some(p)) => fs.deep_view() == p.0 && n as int == p.1 && from + n
                <= s@.len() && n >= 1,
            (None, None) => true,
            _ => false,
        },
{
    let len = s.unicode_len();
    let mut fields: Vec<String> = Vec::new();
    let mut j: usize = from;
    proof {
        assert(fields.deep_view() =~= Seq::<Seq<char>>::empty());
    }
    loop
        invariant
            from <= j <= len,
            len == s@.len() <= usize::MAX,
            ({
                match parse_record(s@.skip(j as int)) {
                    Some(p) => parse_record(s@.skip(from as int)) == Some(
                        (fields.deep_view() + p.0, (j - from) + p.1),
                    ),
                    None => parse_record(s@.skip(from as int)) is None,
                }
            }),
        decreases len - j,
    {
        let ghost t = s@.skip(j as int);
        let mut f = String::new();
        let n = match parse_field_exec(s, j, &mut f) {
            Some(n) => n,
            None => {
                proof {
                    assert(parse_record(t) is None);
                }
                return None;
            },
        };
        let ghost pf = parse_field(t).unwrap();
        if j + n == len {
            proof {
                assert(pf.1 == t.len());
                assert(parse_record(t) is None);
            }
            return None;
        }
        let c = s.get_char(j + n);
        proof {
            assert(t[pf.1] == s@[j + n]);
        }
        if c == '\n' {
            fields.push(f);
            proof {
                assert(parse_record(t) == Some((seq![pf.0], pf.1 + 1)));
                assert(fields.deep_view() =~= fields.deep_view().subrange(
                    0,
                    fields.deep_view().len() - 1,
                ) + seq![f@]);
                assert(fields.deep_view().subrange(0, fields.deep_view().len() - 1) + seq![pf.0]
                    =~= fields.deep_view());
            }
            return Some((fields, j + n + 1 - from));
        } else if c == ',' {
            fields.push(f);
            proof {
                assert(t.skip(pf.1 + 1) =~= s@.skip(j + n + 1));
                let prev = fields.deep_view().subrange(0, fields.deep_view().len() - 1);
                assert(prev + seq![f@] =~= fields.deep_view());
                match parse_record(s@.skip(j + n + 1)) {
                    Some(q) => {
                        assert(parse_record(t) == Some((seq![pf.0] + q.0, pf.1 + 1 + q.1)));
                        assert(prev + (seq![pf.0] + q.0) =~= fields.deep_view() + q.0);
                    },
                    None => {
                        assert(parse_record(t) is None);
                    },
                }
            }
            j = j + n + 1;
        } else {
            proof {
                assert(parse_record(t) is None);
            }
            return None;
        }
    }
}

/// Parses a whole table starting at position `from`: the rows, or `None`
/// when the text does not follow the format.
pub fn parse_table_exec(s: &str, from: usize) -> (r: Option<Vec<Vec<String>>>)
    requires
        from <= s@.len() <= usize::MAX,
    ensures
        match (r, parse_table(s@.skip(from as int))) {
            (Some(rows), Some(sp)) => rows.deep_view() == sp,
            (None, None) => true,
            _ => false,
        },
{
    let len = s.unicode_len();
    let mut rows: Vec<Vec<String>> = Vec::new();
    let mut j: usize = from;
    proof {
        assert(rows.deep_view() =~= Seq::<Seq<Seq<char>>>::empty());
    }
    loop
        invariant
            from <= j <= len,
            len == s@.len() <= usize::MAX,
            ({
                match parse_table(s@.skip(j as int)) {
                    Some(rs) => parse_table(s@.skip(from as int)) == Some(rows.deep_view() + rs),
                    None => parse_table(s@.skip(from as int)) is None,
                }
            }),
        decreases len - j,
    {
        let ghost t = s@.skip(j as int);
        if j == len {
            proof {
                assert(t =~= Seq::<char>::empty());
                assert(parse_table(t) == Some(Seq::<Seq<Seq<char>>>::empty()));
                assert(rows.deep_view() + Seq::<Seq<Seq<char>>>::empty() =~= rows.deep_view());
            }
            return Some(rows);
        }
        proof {
            assert(t.len() > 0);
        }
        let (row, n) = match parse_record_exec(s, j) {
            Some(p) => p,
            None => {
                proof {
                    assert(parse_table(t) is None);
                }
                return None;
            },
        };
        let ghost pr = parse_record(t).unwrap();
        rows.push(row);
        proof {
            assert(t.skip(pr.1) =~= s@.skip(j + n));
            let prev = rows.deep_view().subrange(0, rows.deep_view().len() - 1);
            assert(prev + seq![row.deep_view()] =~= rows.deep_view());
            match parse_table(s@.skip(j + n)) {
                Some(rs) => {
                    assert(parse_table(t) == Some(seq![pr.0] + rs));
                    assert(prev + (seq![pr.0] + rs) =~= rows.deep_view() + rs);
                },
                None => {
                    assert(parse_table(t) is None);
                },
            }
        }
        j = j + n;
    }
}

} // verus!
