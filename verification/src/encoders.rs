//! Parsing the encoder list that the external encoder prints.
//!
//! Asked for its encoders, the encoder process prints a header, a
//! divider line ending in six dashes, and then one line per encoder:
//! eight columns of capability flags, the encoder's name, and a
//! description that may end in a `(codec ...)` note. [`get_encoders`]
//! turns that text into [`Encoder`] records; the caller runs the
//! process and hands the text in.

use vstd::prelude::*;

use crate::store::chars_vec;
use vstd::string::*;

verus! {

/// One encoder the external process offers.
#[derive(Debug, Clone)]
pub struct Encoder {
    /// The name the command line uses.
    pub name: String,
    /// The human-readable description, without the codec note.
    pub display_name: String,
    /// The codec named in a trailing `(codec ...)` note, if any.
    pub codec: Option<String>,
}

/// The mathematical shape of an [`Encoder`].
pub struct EncoderView {
    pub name: Seq<char>,
    pub display_name: Seq<char>,
    pub codec: Option<Seq<char>>,
}

impl View for Encoder {
    type V = EncoderView;

    open spec fn view(&self) -> EncoderView {
        EncoderView {
            name: self.name@,
            display_name: self.display_name@,
            codec: match self.codec {
                Some(c) => Some(c@),
                None => None,
            },
        }
    }
}

impl DeepView for Encoder {
    type V = EncoderView;

    open spec fn deep_view(&self) -> EncoderView {
        self@
    }
}

/// The index of the first `c` in `s[i..to]`, or `to` when there is
/// none.
pub open spec fn find_in(s: Seq<char>, i: int, to: int, c: char) -> int
    decreases to - i,
    when 0 <= i <= to <= s.len()
{
    if i < to {
        if s[i] == c {
            i
        } else {
            find_in(s, i + 1, to, c)
        }
    } else {
        i
    }
}

/// A whitespace character, as the trims here understand it.
pub open spec fn is_ws(c: char) -> bool {
    c == ' ' || c == '\t' || c == '\r' || c == '\n'
}

/// The first index at or after `i` in `s[..to]` holding something
/// other than whitespace, or `to`.
pub open spec fn skip_ws_in(s: Seq<char>, i: int, to: int) -> int
    decreases to - i,
    when 0 <= i <= to <= s.len()
{
    if i < to && is_ws(s[i]) {
        skip_ws_in(s, i + 1, to)
    } else {
        i
    }
}

/// The end of `s[from..j]` once trailing whitespace is dropped, or
/// `from`.
pub open spec fn ws_end_in(s: Seq<char>, j: int, from: int) -> int
    decreases j - from,
    when 0 <= from <= j <= s.len()
{
    if j > from && is_ws(s[j - 1]) {
        ws_end_in(s, j - 1, from)
    } else {
        j
    }
}

/// `s[from..to]` with leading and trailing whitespace dropped.
pub open spec fn trim_in(s: Seq<char>, from: int, to: int) -> Seq<char> {
    let a = skip_ws_in(s, from, to);
    let b = ws_end_in(s, to, from);
    if a <= b {
        s.subrange(a, b)
    } else {
        Seq::empty()
    }
}

/// The seven characters of a codec note, `(codec `, stand at `i`.
pub open spec fn codec_pat_at(s: Seq<char>, i: int) -> bool {
    &&& 0 <= i
    &&& i + 7 <= s.len()
    &&& s[i] == '('
    &&& s[i + 1] == 'c'
    &&& s[i + 2] == 'o'
    &&& s[i + 3] == 'd'
    &&& s[i + 4] == 'e'
    &&& s[i + 5] == 'c'
    &&& s[i + 6] == ' '
}

/// The largest `i` in `[lo, j]` where a codec note starts, or -1.
pub open spec fn rfind_codec_in(s: Seq<char>, j: int, lo: int) -> int
    decreases j - lo + 1,
    when lo >= 0 && j <= s.len()
{
    if j < lo {
        -1
    } else if codec_pat_at(s, j) {
        j
    } else {
        rfind_codec_in(s, j - 1, lo)
    }
}

/// The line ends in six dashes: the divider under the header, after
/// which encoder lines begin.
pub open spec fn ends_with_dashes(line: Seq<char>) -> bool {
    let n = line.len() as int;
    &&& n >= 6
    &&& line[n - 6] == '-'
    &&& line[n - 5] == '-'
    &&& line[n - 4] == '-'
    &&& line[n - 3] == '-'
    &&& line[n - 2] == '-'
    &&& line[n - 1] == '-'
}

/// What one line inside the encoder section yields: skip the eight
/// flag columns; the text up to the first space is the name, the rest
/// the description, both trimmed; a line without that split yields
/// nothing. A description ending in a closed `(codec ...)` note has
/// the note split off as the codec and dropped from the display name;
/// an unclosed note still leaves the display name cut at the note.
pub open spec fn line_encoder(line: Seq<char>) -> Option<EncoderView> {
    let n = line.len() as int;
    if n < 8 {
        None
    } else {
        let si = find_in(line, 8, n, ' ');
        if si == n {
            None
        } else {
            let name = trim_in(line, 8, si);
            let da = skip_ws_in(line, si + 1, n);
            let db0 = ws_end_in(line, n, si + 1);
            let db = if da <= db0 {
                db0
            } else {
                da
            };
            let st = rfind_codec_in(line, db - 7, da);
            if st >= 0 {
                let close = find_in(line, st, db, ')');
                if close < db {
                    Some(
                        EncoderView {
                            name,
                            display_name: trim_in(line, da, st),
                            codec: Some(line.subrange(st + 7, close)),
                        },
                    )
                } else {
                    Some(EncoderView { name, display_name: trim_in(line, da, st), codec: None })
                }
            } else {
                Some(EncoderView { name, display_name: line.subrange(da, db), codec: None })
            }
        }
    }
}

/// The text split into lines the way the stream is read: at every
/// newline, dropping one carriage return before it; a final segment
/// without a newline is kept verbatim.
pub open spec fn split_lines(s: Seq<char>) -> Seq<Seq<char>>
    decreases s.len(),
{
    if s.len() == 0 {
        seq![]
    } else {
        let i = find_in(s, 0, s.len() as int, '\n');
        if 0 <= i && i < s.len() {
            let raw = s.subrange(0, i);
            let line = if raw.len() > 0 && raw[raw.len() - 1] == '\r' {
                raw.drop_last()
            } else {
                raw
            };
            seq![line] + split_lines(s.subrange(i + 1, s.len() as int))
        } else {
            seq![s]
        }
    }
}

/// The encoders named by a list of lines: nothing counts until a
/// divider line has passed; after it, every non-empty line that parses
/// contributes one record, in order.
pub open spec fn parse_encoders(lines: Seq<Seq<char>>, in_section: bool) -> Seq<EncoderView>
    decreases lines.len(),
{
    if lines.len() == 0 {
        seq![]
    } else {
        let line = lines[0];
        if ends_with_dashes(line) {
            parse_encoders(lines.drop_first(), true)
        } else if in_section && line.len() > 0 {
            match line_encoder(line) {
                Some(e) => seq![e] + parse_encoders(lines.drop_first(), true),
                None => parse_encoders(lines.drop_first(), true),
            }
        } else {
            parse_encoders(lines.drop_first(), in_section)
        }
    }
}

/// Every encoder named in the process's full output, in order.
pub open spec fn encoders_of(s: Seq<char>) -> Seq<EncoderView> {
    parse_encoders(split_lines(s), false)
}

/// `find_in` stays within its bounds.
proof fn lemma_find_in_bounds(s: Seq<char>, i: int, to: int, c: char)
    requires
        0 <= i <= to <= s.len(),
    ensures
        i <= find_in(s, i, to, c) <= to,
        find_in(s, i, to, c) < to ==> s[find_in(s, i, to, c)] == c,
    decreases to - i,
{
    if i < to && s[i] != c {
        lemma_find_in_bounds(s, i + 1, to, c);
    }
}

/// Finding inside a subrange is finding inside the original, shifted.
proof fn lemma_find_in_subrange(s: Seq<char>, a: int, b: int, i: int, c: char)
    requires
        0 <= a <= i <= b <= s.len(),
    ensures
        find_in(s.subrange(a, b), i - a, b - a, c) == find_in(s, i, b, c) - a,
    decreases b - i,
{
    if i < b && s[i] != c {
        lemma_find_in_subrange(s, a, b, i + 1, c);
    }
}

/// Exact executable counterpart of [`find_in`].
fn find_char(v: &Vec<char>, from: usize, to: usize, c: char) -> (r: usize)
    requires
        from <= to <= v@.len(),
    ensures
        r == find_in(v@, from as int, to as int, c),
        from <= r <= to,
{
    let mut i = from;
    while i < to
        invariant
            from <= i <= to <= v@.len(),
            find_in(v@, from as int, to as int, c) == find_in(v@, i as int, to as int, c),
        decreases to - i,
    {
        if v[i] == c {
            return i;
        }
        i = i + 1;
    }
    to
}

/// Exact executable counterpart of [`skip_ws_in`].
fn skip_ws(v: &Vec<char>, from: usize, to: usize) -> (r: usize)
    requires
        from <= to <= v@.len(),
    ensures
        r == skip_ws_in(v@, from as int, to as int),
        from <= r <= to,
{
    let mut i = from;
    while i < to && (v[i] == ' ' || v[i] == '\t' || v[i] == '\r' || v[i] == '\n')
        invariant
            from <= i <= to <= v@.len(),
            skip_ws_in(v@, from as int, to as int) == skip_ws_in(v@, i as int, to as int),
        decreases to - i,
    {
        i = i + 1;
    }
    i
}

/// Exact executable counterpart of [`ws_end_in`].
fn ws_end(v: &Vec<char>, to: usize, from: usize) -> (r: usize)
    requires
        from <= to <= v@.len(),
    ensures
        r == ws_end_in(v@, to as int, from as int),
        from <= r <= to,
{
    let mut j = to;
    while j > from && (v[j - 1] == ' ' || v[j - 1] == '\t' || v[j - 1] == '\r' || v[j - 1] == '\n')
        invariant
            from <= j <= to <= v@.len(),
            ws_end_in(v@, to as int, from as int) == ws_end_in(v@, j as int, from as int),
        decreases j,
    {
        j = j - 1;
    }
    j
}

/// The trimmed text of `line[from..to]`, exactly [`trim_in`].
fn trimmed(line: &str, v: &Vec<char>, from: usize, to: usize) -> (r: String)
    requires
        v@ == line@,
        from <= to <= v@.len(),
    ensures
        r@ == trim_in(line@, from as int, to as int),
{
    let a = skip_ws(v, from, to);
    let b = ws_end(v, to, from);
    if a <= b {
        String::from_str(line.substring_char(a, b))
    } else {
        proof {
            reveal_strlit("");
        }
        String::from_str("")
    }
}

/// Whether a codec note stands at `i`, exactly [`codec_pat_at`].
fn codec_pat(v: &Vec<char>, i: usize) -> (r: bool)
    ensures
        r == codec_pat_at(v@, i as int),
{
    if v.len() >= 7 && i <= v.len() - 7 {
        v[i] == '(' && v[i + 1] == 'c' && v[i + 2] == 'o' && v[i + 3] == 'd' && v[i + 4] == 'e'
            && v[i + 5] == 'c' && v[i + 6] == ' '
    } else {
        false
    }
}

/// The last codec note starting in `[lo, j]`, exactly
/// [`rfind_codec_in`].
fn rfind_codec(v: &Vec<char>, j_end: usize, lo: usize) -> (r: Option<usize>)
    requires
        lo <= v@.len(),
        j_end <= v@.len(),
    ensures
        match r {
            Some(u) => rfind_codec_in(v@, j_end as int, lo as int) == u && codec_pat_at(
                v@,
                u as int,
            ) && lo <= u <= j_end,
            None => rfind_codec_in(v@, j_end as int, lo as int) == -1,
        },
{
    if j_end < lo {
        return None;
    }
    let mut j = j_end;
    loop
        invariant
            lo <= j <= j_end <= v@.len(),
            rfind_codec_in(v@, j_end as int, lo as int) == rfind_codec_in(v@, j as int, lo as int),
        decreases j,
    {
        if codec_pat(v, j) {
            return Some(j);
        }
        if j == lo {
            proof {
                assert(rfind_codec_in(v@, lo as int, lo as int) == rfind_codec_in(
                    v@,
                    lo - 1,
                    lo as int,
                ));
                assert(rfind_codec_in(v@, lo - 1, lo as int) == -1);
            }
            return None;
        }
        j = j - 1;
    }
}

/// Whether the line is the divider, exactly [`ends_with_dashes`].
fn is_divider(v: &Vec<char>) -> (r: bool)
    ensures
        r == ends_with_dashes(v@),
{
    let n = v.len();
    n >= 6 && v[n - 6] == '-' && v[n - 5] == '-' && v[n - 4] == '-' && v[n - 3] == '-' && v[n - 2]
        == '-' && v[n - 1] == '-'
}

/// Parses one line inside the encoder section, exactly
/// [`line_encoder`].
fn parse_line(line: &str, v: &Vec<char>) -> (r: Option<Encoder>)
    requires
        v@ == line@,
    ensures
        match r {
            Some(e) => line_encoder(line@) == Some(e@),
            None => line_encoder(line@) is None,
        },
{
    let n = v.len();
    if n < 8 {
        return None;
    }
    let si = find_char(v, 8, n, ' ');
    if si == n {
        return None;
    }
    let name = trimmed(line, v, 8, si);
    let da = skip_ws(v, si + 1, n);
    let db0 = ws_end(v, n, si + 1);
    let db = if da <= db0 {
        db0
    } else {
        da
    };
    let found = if db >= 7 {
        rfind_codec(v, db - 7, da)
    } else {
        proof {
            assert(rfind_codec_in(v@, db - 7, da as int) == -1);
        }
        None
    };
    match found {
        Some(st) => {
            proof {
                assert(codec_pat_at(v@, st as int));
            }
            let close = find_char(v, st, db, ')');
            let display_name = trimmed(line, v, da, st);
            if close < db {
                proof {
                    lemma_find_in_bounds(v@, st as int, db as int, ')');
                    assert(v@[close as int] == ')');
                    // The note's own seven characters hold no closing
                    // parenthesis, so the close lies past them.
                    assert(close >= st + 7) by {
                        if close < st + 7 {
                            assert(find_in(v@, st as int, db as int, ')') == close);
                        }
                    }
                }
                let codec = String::from_str(line.substring_char(st + 7, close));
                Some(Encoder { name, display_name, codec: Some(codec) })
            } else {
                Some(Encoder { name, display_name, codec: None })
            }
        },
        None => {
            let display_name = String::from_str(line.substring_char(da, db));
            Some(Encoder { name, display_name, codec: None })
        },
    }
}

/// Parses the encoder list from the process's full output: every
/// encoder line after the divider, in order, exactly [`encoders_of`].
pub fn get_encoders(output: &str) -> (r: Vec<Encoder>)
    ensures
        r.deep_view() == encoders_of(output@),
{
    let cv = chars_vec(output);
    let n = cv.len();
    let mut res: Vec<Encoder> = Vec::new();
    let mut in_sec = false;
    let mut start: usize = 0;
    proof {
        assert(output@.subrange(0, n as int) =~= output@);
    }
    while start < n
        invariant
            n == output@.len(),
            cv@ == output@,
            start <= n,
            res.deep_view() + parse_encoders(
                split_lines(output@.subrange(start as int, n as int)),
                in_sec,
            ) == encoders_of(output@),
        decreases n - start,
    {
        let ghost rem = output@.subrange(start as int, n as int);
        let nl = find_char(&cv, start, n, '\n');
        proof {
            lemma_find_in_subrange(output@, start as int, n as int, start as int, '\n');
            assert(find_in(rem, 0, rem.len() as int, '\n') == nl - start);
        }
        let lend: usize;
        let next: usize;
        if nl == n {
            lend = n;
            next = n;
            proof {
                assert(split_lines(rem) == seq![rem]);
                assert(rem =~= output@.subrange(start as int, lend as int));
            }
        } else {
            if nl > start && cv[nl - 1] == '\r' {
                lend = nl - 1;
            } else {
                lend = nl;
            }
            next = nl + 1;
            proof {
                let raw = rem.subrange(0, nl - start);
                assert(raw =~= output@.subrange(start as int, nl as int));
                let stripped = if raw.len() > 0 && raw[raw.len() - 1] == '\r' {
                    raw.drop_last()
                } else {
                    raw
                };
                assert(stripped =~= output@.subrange(start as int, lend as int));
                assert(rem.subrange(nl - start + 1, rem.len() as int) =~= output@.subrange(
                    next as int,
                    n as int,
                ));
                assert(split_lines(rem) == seq![stripped] + split_lines(
                    output@.subrange(next as int, n as int),
                ));
            }
        }
        let line = output.substring_char(start, lend);
        let lv = chars_vec(line);
        let ghost lview = output@.subrange(start as int, lend as int);
        let ghost tail_lines = split_lines(output@.subrange(next as int, n as int));
        let ghost was = in_sec;
        let ghost res0 = res.deep_view();
        proof {
            if nl == n {
                assert(output@.subrange(next as int, n as int) =~= Seq::<char>::empty());
                assert(tail_lines =~= Seq::<Seq<char>>::empty());
                assert(split_lines(rem) =~= seq![lview] + tail_lines);
            }
            assert(split_lines(rem) == seq![lview] + tail_lines);
            assert((seq![lview] + tail_lines).drop_first() =~= tail_lines);
            assert((seq![lview] + tail_lines)[0] == lview);
        }
        if is_divider(&lv) {
            in_sec = true;
            proof {
                assert(parse_encoders(split_lines(rem), was) == parse_encoders(tail_lines, true));
            }
        } else if in_sec && lv.len() > 0 {
            match parse_line(line, &lv) {
                Some(enc) => {
                    let ghost ev = enc@;
                    res.push(enc);
                    proof {
                        assert(parse_encoders(split_lines(rem), was) == seq![ev] + parse_encoders(
                            tail_lines,
                            true,
                        ));
                        assert(res.deep_view() =~= res0.push(ev));
                        assert(res0.push(ev) + parse_encoders(tail_lines, true) =~= res0 + (
                        seq![ev] + parse_encoders(tail_lines, true)));
                    }
                },
                None => {
                    proof {
                        assert(parse_encoders(split_lines(rem), was) == parse_encoders(
                            tail_lines,
                            true,
                        ));
                    }
                },
            }
        } else {
            proof {
                assert(parse_encoders(split_lines(rem), was) == parse_encoders(tail_lines, was));
            }
        }
        start = next;
    }
    proof {
        assert(output@.subrange(n as int, n as int) =~= Seq::<char>::empty());
        assert(res.deep_view() + Seq::<EncoderView>::empty() =~= res.deep_view());
    }
    res
}

} // verus!
