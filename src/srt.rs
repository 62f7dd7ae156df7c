use vstd::prelude::*;

use crate::timestamp::{
    chars_of, decimal, parse_spec, parse_u32_spec, parse_u32_text, push_decimal, simple_text, srt_text,
    vtt_text, SubtitleEntry, TimeStamp,
};
use crate::text::{trim_end_text, trim_text, trimmed, trimmed_end};

verus! {

/// Index of the first occurrence of `sep` in `s`, or -1.
pub open spec fn find_seq(s: Seq<char>, sep: Seq<char>) -> int
    decreases s.len(),
{
    if s.len() < sep.len() {
        -1
    } else if s.take(sep.len() as int) == sep {
        0
    } else if s.len() == 0 {
        -1
    } else {
        let r = find_seq(s.skip(1), sep);
        if r < 0 {
            -1
        } else {
            r + 1
        }
    }
}

/// The pieces of `s` between non-overlapping occurrences of `sep`, found
/// from the left, as `str::split` yields them.
pub open spec fn split_on(s: Seq<char>, sep: Seq<char>) -> Seq<Seq<char>>
    decreases s.len(),
{
    let i = find_seq(s, sep);
    if i < 0 || sep.len() == 0 || i + sep.len() > s.len() {
        seq![s]
    } else {
        seq![s.take(i)] + split_on(s.skip(i + sep.len()), sep)
    }
}

/// A line without the `\r` of a `\r\n` ending.
pub open spec fn strip_cr(x: Seq<char>) -> Seq<char> {
    if x.len() > 0 && x.last() == '\r' {
        x.drop_last()
    } else {
        x
    }
}

/// The lines of `s`, as `str::lines` yields them: split at `\n`, a `\r`
/// before a `\n` dropped, no line after a final `\n`.
pub open spec fn lines_spec(s: Seq<char>) -> Seq<Seq<char>> {
    let p = split_on(s, seq!['\n']);
    let n = p.len() as int;
    let kept = if p[n - 1].len() == 0 {
        n - 1
    } else {
        n
    };
    Seq::new(kept as nat, |i: int| if i < n - 1 { strip_cr(p[i]) } else { p[i] })
}

/// `parts` joined by `sep`.
pub open spec fn join(parts: Seq<Seq<char>>, sep: Seq<char>) -> Seq<char>
    decreases parts.len(),
{
    if parts.len() == 0 {
        Seq::empty()
    } else if parts.len() == 1 {
        parts[0]
    } else {
        join(parts.drop_last(), sep) + sep + parts.last()
    }
}

/// A subtitle as values: number, start, end, text.
pub type EntryView = (u32, TimeStamp, TimeStamp, Seq<char>);

pub open spec fn entry_view(e: SubtitleEntry) -> EntryView {
    (e.id, e.start_time, e.end_time, e.text@)
}

/// One block of a subtitle file: `None` when it is malformed, `Some(None)`
/// when it is skipped (empty, or under three lines), else its subtitle.
pub open spec fn block_spec(b: Seq<char>) -> Option<Option<EntryView>> {
    let t = trimmed(b);
    let ls = lines_spec(t);
    if t.len() == 0 || ls.len() < 3 {
        Some(None)
    } else {
        let times = split_on(trimmed(ls[1]), " --> "@);
        if times.len() != 2 {
            None
        } else {
            match (
                parse_u32_spec(trimmed(ls[0])),
                parse_spec(trimmed(times[0])),
                parse_spec(trimmed(times[1])),
            ) {
                (Some(id), Some(start), Some(end)) => Some(
                    Some((id, start, end, join(ls.skip(2), seq!['\n']))),
                ),
                _ => None,
            }
        }
    }
}

/// The subtitles of the first `k` blocks, or `None` if one is malformed.
pub open spec fn blocks_spec(blocks: Seq<Seq<char>>) -> Option<Seq<EntryView>>
    decreases blocks.len(),
{
    if blocks.len() == 0 {
        Some(Seq::empty())
    } else {
        match (blocks_spec(blocks.drop_last()), block_spec(blocks.last())) {
            (Some(es), Some(None)) => Some(es),
            (Some(es), Some(Some(e))) => Some(es.push(e)),
            _ => None,
        }
    }
}

/// The subtitles of a subtitle file's text, blocks being separated by a
/// blank line.
pub open spec fn srt_spec(content: Seq<char>) -> Option<Seq<EntryView>> {
    blocks_spec(split_on(content, "\n\n"@))
}

/// `find_seq` never points past the last place a whole `sep` fits.
proof fn lemma_find_seq_bound(s: Seq<char>, sep: Seq<char>)
    ensures
        find_seq(s, sep) >= 0 ==> find_seq(s, sep) + sep.len() <= s.len() && s.subrange(
            find_seq(s, sep),
            find_seq(s, sep) + sep.len(),
        ) == sep,
    decreases s.len(),
{
    if s.len() >= sep.len() && s.take(sep.len() as int) != sep && s.len() > 0 {
        lemma_find_seq_bound(s.skip(1), sep);
        let r = find_seq(s.skip(1), sep);
        if r >= 0 {
            assert(s.skip(1).subrange(r, r + sep.len()) =~= s.subrange(r + 1, r + 1 + sep.len()));
        }
    } else if s.len() >= sep.len() && s.take(sep.len() as int) == sep {
        assert(s.subrange(0, sep.len() as int) =~= s.take(sep.len() as int));
    }
}

/// Whether `sep` occurs in `v` at `k`.
fn occurs_at(v: &Vec<char>, k: usize, sep: &Vec<char>) -> (r: bool)
    requires
        k <= v@.len(),
    ensures
        r == (k + sep@.len() <= v@.len() && v@.subrange(k as int, k + sep@.len()) == sep@),
{
    if sep.len() > v.len() - k {
        return false;
    }
    let vn = v.len();
    let mut m: usize = 0;
    while m < sep.len()
        invariant
            vn == v@.len(),
            k + sep@.len() <= v@.len(),
            m <= sep@.len(),
            forall|x: int| 0 <= x < m ==> v@[k + x] == sep@[x],
        decreases sep@.len() - m,
    {
        if v[k + m] != sep[m] {
            assert(v@.subrange(k as int, k + sep@.len())[m as int] != sep@[m as int]);
            return false;
        }
        m = m + 1;
    }
    assert(v@.subrange(k as int, k + sep@.len()) =~= sep@);
    true
}

/// The first occurrence of `sep` at or after `from`.
fn find_from(v: &Vec<char>, from: usize, sep: &Vec<char>) -> (r: Option<usize>)
    requires
        from <= v@.len(),
        sep@.len() > 0,
    ensures
        match r {
            Some(k) => from <= k && k - from == find_seq(v@.skip(from as int), sep@),
            None => find_seq(v@.skip(from as int), sep@) < 0,
        },
{
    let n = v.len();
    let mut k: usize = from;
    while k <= n
        invariant
            n == v@.len(),
            from <= k <= n + 1,
            sep@.len() > 0,
            k <= n ==> (find_seq(v@.skip(from as int), sep@) < 0 <==> find_seq(v@.skip(k as int), sep@) < 0),
            k <= n ==> (find_seq(v@.skip(k as int), sep@) >= 0 ==> find_seq(v@.skip(from as int), sep@)
                == find_seq(v@.skip(k as int), sep@) + (k - from)),
            k > n ==> find_seq(v@.skip(from as int), sep@) < 0,
        decreases n + 1 - k,
    {
        let ghost x = v@.skip(k as int);
        if occurs_at(v, k, sep) {
            assert(x.take(sep@.len() as int) =~= v@.subrange(k as int, k + sep@.len()));
            return Some(k);
        }
        if k == n {
            assert(x.len() == 0);
            return None;
        } else {
            proof {
                if x.len() >= sep@.len() {
                    assert(x.take(sep@.len() as int) =~= v@.subrange(k as int, k + sep@.len()));
                }
            }
            assert(x.skip(1) =~= v@.skip(k + 1));
            k = k + 1;
        }
    }
    None
}

/// The pieces of `s` between non-overlapping occurrences of `sep`, found
/// from the left, as `str::split` yields them.
fn split_text(s: &str, sep: &str) -> (r: Vec<String>)
    requires
        sep@.len() > 0,
    ensures
        r@.len() == split_on(s@, sep@).len(),
        forall|i: int| 0 <= i < r@.len() ==> (#[trigger] r@[i])@ == split_on(s@, sep@)[i],
{
    let v = chars_of(s);
    let p = chars_of(sep);
    let n = v.len();
    let mut out: Vec<String> = Vec::new();
    let mut pos: usize = 0;
    assert(s@.skip(0) =~= s@);
    loop
        invariant
            v@ == s@,
            p@ == sep@,
            n == s@.len(),
            sep@.len() > 0,
            pos <= n,
            views(out@) + split_on(s@.skip(pos as int), sep@) == split_on(s@, sep@),
        decreases n - pos,
    {
        let ghost x = s@.skip(pos as int);
        proof {
            lemma_find_seq_bound(x, sep@);
        }
        match find_from(&v, pos, &p) {
            Some(k) => {
                let ghost before = views(out@);
                out.push(String::from_str(s.substring_char(pos, k)));
                assert(s@.subrange(pos as int, k as int) =~= x.take(k - pos));
                assert(x.skip(k - pos + sep@.len()) =~= s@.skip(k + sep@.len()));
                assert(split_on(x, sep@) == seq![x.take(k - pos)] + split_on(
                    x.skip(k - pos + sep@.len()),
                    sep@,
                ));
                assert(views(out@) =~= before.push(x.take(k - pos)));
                assert(views(out@) + split_on(s@.skip(k + sep@.len()), sep@) =~= before
                    + split_on(x, sep@));
                pos = k + sep.unicode_len();
            },
            None => {
                let ghost before = views(out@);
                out.push(String::from_str(s.substring_char(pos, n)));
                assert(s@.subrange(pos as int, n as int) =~= x);
                assert(split_on(x, sep@) == seq![x]);
                assert(views(out@) =~= before + split_on(x, sep@));
                return out;
            },
        }
    }
}

/// The lines of `s`, as `str::lines` yields them.
fn text_lines(s: &str) -> (r: Vec<String>)
    ensures
        r@.len() == lines_spec(s@).len(),
        forall|i: int| 0 <= i < r@.len() ==> (#[trigger] r@[i])@ == lines_spec(s@)[i],
{
    proof {
        reveal_strlit("\n");
        assert("\n"@ =~= seq!['\n']);
    }
    let pieces = split_text(s, "\n");
    let ghost p = split_on(s@, seq!['\n']);
    let n = pieces.len();
    let kept = if pieces[n - 1].as_str().unicode_len() == 0 {
        n - 1
    } else {
        n
    };
    let mut out: Vec<String> = Vec::new();
    let mut i: usize = 0;
    while i < kept
        invariant
            n == p.len(),
            n > 0,
            kept <= n,
            kept == lines_spec(s@).len(),
            p == split_on(s@, seq!['\n']),
            pieces@.len() == n,
            forall|j: int| 0 <= j < n ==> (#[trigger] pieces@[j])@ == p[j],
            i <= kept,
            out@.len() == i,
            forall|j: int| 0 <= j < i ==> (#[trigger] out@[j])@ == lines_spec(s@)[j],
        decreases kept - i,
    {
        let piece = pieces[i].as_str();
        let len = piece.unicode_len();
        if i < n - 1 && len > 0 && piece.get_char(len - 1) == '\r' {
            out.push(String::from_str(piece.substring_char(0, len - 1)));
            assert(piece@.subrange(0, len - 1) =~= piece@.drop_last());
        } else {
            out.push(String::from_str(piece));
        }
        i = i + 1;
    }
    out
}

fn join_from(parts: &Vec<String>, from: usize) -> (r: String)
    requires
        from <= parts@.len(),
    ensures
        r@ == join(
            Seq::new((parts@.len() - from) as nat, |i: int| parts@[from + i]@),
            seq!['\n'],
        ),
{
    let ghost views = Seq::new((parts@.len() - from) as nat, |i: int| parts@[from + i]@);
    let mut out = String::new();
    let mut k: usize = from;
    proof {
        reveal_strlit("\n");
    }
    while k < parts.len()
        invariant
            from <= k <= parts@.len(),
            views == Seq::new((parts@.len() - from) as nat, |i: int| parts@[from + i]@),
            out@ == join(views.take(k - from), seq!['\n']),
        decreases parts@.len() - k,
    {
        let ghost prev = views.take(k - from);
        let ghost next = views.take(k - from + 1);
        assert(next.drop_last() =~= prev);
        if k > from {
            proof {
                reveal_strlit("\n");
            }
            out.append("\n");
        } else {
            assert(prev.len() == 0);
        }
        out.append(parts[k].as_str());
        k = k + 1;
    }
    assert(views.take(k - from) =~= views);
    out
}

fn parse_block(block: &String) -> (r: Result<Option<SubtitleEntry>, String>)
    ensures
        r is Err <==> block_spec(block@) is None,
        r matches Ok(None) ==> block_spec(block@) == Some(None::<EntryView>),
        r matches Ok(Some(e)) ==> block_spec(block@) == Some(Some(entry_view(e))),
{
    let t = trim_text(block.as_str());
    if t.unicode_len() == 0 {
        return Ok(None);
    }
    let lines = text_lines(t.as_str());
    if lines.len() < 3 {
        return Ok(None);
    }
    let id_text = trim_text(lines[0].as_str());
    let time_line = trim_text(lines[1].as_str());
    proof {
        reveal_strlit(" --> ");
    }
    let times = split_text(time_line.as_str(), " --> ");
    if times.len() != 2 {
        return Err(String::from_str("Invalid timestamp line"));
    }
    let id = match parse_u32_text(id_text.as_str()) {
        Some(x) => x,
        None => return Err(String::from_str("Invalid subtitle ID")),
    };
    let start_text = trim_text(times[0].as_str());
    let end_text = trim_text(times[1].as_str());
    let start_time = match TimeStamp::parse(start_text.as_str()) {
        Ok(x) => x,
        Err(e) => return Err(e),
    };
    let end_time = match TimeStamp::parse(end_text.as_str()) {
        Ok(x) => x,
        Err(e) => return Err(e),
    };
    let text = join_from(&lines, 2);
    let ghost ls = lines_spec(t@);
    assert(Seq::new((lines@.len() - 2) as nat, |i: int| lines@[2 + i]@) =~= ls.skip(2));
    Ok(Some(SubtitleEntry { id, start_time, end_time, text }))
}

/// A malformed block makes the whole file malformed.
proof fn lemma_blocks_error(bs: Seq<Seq<char>>, k: int)
    requires
        0 <= k <= bs.len(),
        blocks_spec(bs.take(k)) is None,
    ensures
        blocks_spec(bs) is None,
    decreases bs.len(),
{
    if bs.len() == k {
        assert(bs.take(k) =~= bs);
    } else {
        assert(bs.drop_last().take(k) =~= bs.take(k));
        lemma_blocks_error(bs.drop_last(), k);
    }
}

/// Reads the subtitles of a subtitle file's text. Blocks are separated by a
/// blank line; empty blocks and blocks of fewer than three lines are
/// skipped; a block with a bad number or timestamp line is an error.
pub fn parse_srt(content: &str) -> (r: Result<Vec<SubtitleEntry>, String>)
    ensures
        r is Err <==> srt_spec(content@) is None,
        r matches Ok(v) ==> srt_spec(content@) == Some(v@.map_values(|e: SubtitleEntry| entry_view(e))),
{
    proof {
        reveal_strlit("\n\n");
    }
    let blocks = split_text(content, "\n\n");
    let ghost bs = split_on(content@, "\n\n"@);
    let mut entries: Vec<SubtitleEntry> = Vec::new();
    let mut i: usize = 0;
    while i < blocks.len()
        invariant
            i <= blocks@.len(),
            bs == split_on(content@, "\n\n"@),
            blocks@.len() == bs.len(),
            forall|j: int| 0 <= j < blocks@.len() ==> (#[trigger] blocks@[j])@ == bs[j],
            blocks_spec(bs.take(i as int)) == Some(
                entries@.map_values(|e: SubtitleEntry| entry_view(e)),
            ),
        decreases blocks@.len() - i,
    {
        assert(bs.take(i + 1).drop_last() =~= bs.take(i as int));
        assert(bs.take(i + 1).last() == bs[i as int]);
        match parse_block(&blocks[i]) {
            Err(e) => {
                proof {
                    assert(bs.take(i + 1).last() == bs[i as int]);
                    assert(blocks_spec(bs.take(i + 1)) is None);
                    lemma_blocks_error(bs, (i + 1) as int);
                }
                return Err(e);
            },
            Ok(None) => {},
            Ok(Some(e)) => {
                let ghost before = entries@;
                let ghost ev = entry_view(e);
                entries.push(e);
                assert(entries@.map_values(|x: SubtitleEntry| entry_view(x)) =~= before.map_values(
                    |x: SubtitleEntry| entry_view(x),
                ).push(ev));
            },
        }
        i = i + 1;
    }
    assert(bs.take(i as int) =~= bs);
    Ok(entries)
}

/// The views of a list of texts.
pub open spec fn views(v: Seq<String>) -> Seq<Seq<char>> {
    Seq::new(v.len(), |i: int| v[i]@)
}

/// `parts` joined by `sep`.
pub fn join_with(parts: &Vec<String>, sep: &str) -> (r: String)
    ensures
        r@ == join(views(parts@), sep@),
{
    let ghost vs = views(parts@);
    let mut out = String::new();
    let mut k: usize = 0;
    while k < parts.len()
        invariant
            k <= parts@.len(),
            vs == views(parts@),
            out@ == join(vs.take(k as int), sep@),
        decreases parts@.len() - k,
    {
        assert(vs.take(k + 1).drop_last() =~= vs.take(k as int));
        if k > 0 {
            out.append(sep);
        } else {
            assert(vs.take(k as int).len() == 0);
        }
        out.append(parts[k].as_str());
        k = k + 1;
    }
    assert(vs.take(k as int) =~= vs);
    out
}

/// One cue of a subtitle file: number, timing line, text.
pub open spec fn srt_cue(n: nat, e: SubtitleEntry) -> Seq<char> {
    decimal(n) + "\n"@ + srt_text(e.start_time) + " --> "@ + srt_text(e.end_time) + "\n"@ + e.text@
}

/// One cue of a WebVTT file.
pub open spec fn vtt_cue(n: nat, e: SubtitleEntry) -> Seq<char> {
    decimal(n) + "\n"@ + vtt_text(e.start_time) + " --> "@ + vtt_text(e.end_time) + "\n"@ + e.text@
}

/// A subtitle file: cues numbered from 1 in order, whatever their own
/// numbers, separated by blank lines.
pub open spec fn srt_file_spec(es: Seq<SubtitleEntry>) -> Seq<char> {
    join(Seq::new(es.len(), |i: int| srt_cue((i + 1) as nat, es[i])), "\n\n"@)
}

/// A WebVTT file: the header, then cues as in a subtitle file.
pub open spec fn vtt_file_spec(es: Seq<SubtitleEntry>) -> Seq<char> {
    "WEBVTT\n\n"@ + join(Seq::new(es.len(), |i: int| vtt_cue((i + 1) as nat, es[i])), "\n\n"@)
}

/// Plain text: the texts, one per line.
pub open spec fn txt_file_spec(es: Seq<SubtitleEntry>) -> Seq<char> {
    join(Seq::new(es.len(), |i: int| es[i].text@), "\n"@)
}

/// A text with its line breaks turned into spaces.
pub open spec fn one_line(t: Seq<char>) -> Seq<char> {
    Seq::new(t.len(), |i: int| if t[i] == '\n' { ' ' } else { t[i] })
}

/// One Markdown paragraph: `**[start - end]** text`.
pub open spec fn markdown_item(e: SubtitleEntry) -> Seq<char> {
    "**["@ + simple_text(e.start_time) + " - "@ + simple_text(e.end_time) + "]** "@ + one_line(e.text@)
        + "\n\n"@
}

pub open spec fn markdown_body(es: Seq<SubtitleEntry>) -> Seq<char>
    decreases es.len(),
{
    if es.len() == 0 {
        Seq::empty()
    } else {
        markdown_body(es.drop_last()) + markdown_item(es.last())
    }
}

/// A Markdown script: a title, then one paragraph per subtitle, without
/// trailing white space.
pub open spec fn markdown_file_spec(es: Seq<SubtitleEntry>) -> Seq<char> {
    trimmed_end("# 视频脚本\n\n"@ + markdown_body(es))
}

fn cue(n: u64, e: &SubtitleEntry, vtt: bool) -> (r: String)
    ensures
        vtt ==> r@ == vtt_cue(n as nat, *e),
        !vtt ==> r@ == srt_cue(n as nat, *e),
{
    let mut out = String::new();
    push_decimal(&mut out, n);
    out.append("\n");
    let (a, b) = if vtt {
        (e.start_time.to_vtt_string(), e.end_time.to_vtt_string())
    } else {
        (e.start_time.to_string(), e.end_time.to_string())
    };
    out.append(a.as_str());
    out.append(" --> ");
    out.append(b.as_str());
    out.append("\n");
    out.append(e.text.as_str());
    out
}

fn cues(entries: &Vec<SubtitleEntry>, vtt: bool) -> (r: Vec<String>)
    ensures
        vtt ==> views(r@) == Seq::new(
            entries@.len(),
            |i: int| vtt_cue((i + 1) as nat, entries@[i]),
        ),
        !vtt ==> views(r@) == Seq::new(
            entries@.len(),
            |i: int| srt_cue((i + 1) as nat, entries@[i]),
        ),
{
    let mut out: Vec<String> = Vec::new();
    let mut i: usize = 0;
    while i < entries.len()
        invariant
            i <= entries@.len(),
            out@.len() == i,
            forall|j: int|
                0 <= j < i ==> (vtt ==> (#[trigger] out@[j])@ == vtt_cue((j + 1) as nat, entries@[j]))
                    && (!vtt ==> out@[j]@ == srt_cue((j + 1) as nat, entries@[j])),
        decreases entries@.len() - i,
    {
        out.push(cue(i as u64 + 1, &entries[i], vtt));
        i = i + 1;
    }
    assert(vtt ==> views(out@) =~= Seq::new(
        entries@.len(),
        |i: int| vtt_cue((i + 1) as nat, entries@[i]),
    ));
    assert(!vtt ==> views(out@) =~= Seq::new(
        entries@.len(),
        |i: int| srt_cue((i + 1) as nat, entries@[i]),
    ));
    out
}

/// The text of a subtitle file holding `entries`.
pub fn srt_file_text(entries: &Vec<SubtitleEntry>) -> (r: String)
    ensures
        r@ == srt_file_spec(entries@),
{
    let parts = cues(entries, false);
    join_with(&parts, "\n\n")
}

/// The text of a WebVTT file holding `entries`.
pub fn vtt_file_text(entries: &Vec<SubtitleEntry>) -> (r: String)
    ensures
        r@ == vtt_file_spec(entries@),
{
    let parts = cues(entries, true);
    let body = join_with(&parts, "\n\n");
    let mut out = String::from_str("WEBVTT\n\n");
    out.append(body.as_str());
    out
}

/// The texts of `entries`, one per line.
pub fn txt_file_text(entries: &Vec<SubtitleEntry>) -> (r: String)
    ensures
        r@ == txt_file_spec(entries@),
{
    let mut texts: Vec<String> = Vec::new();
    let mut i: usize = 0;
    while i < entries.len()
        invariant
            i <= entries@.len(),
            texts@.len() == i,
            forall|j: int| 0 <= j < i ==> (#[trigger] texts@[j])@ == entries@[j].text@,
        decreases entries@.len() - i,
    {
        texts.push(entries[i].text.clone());
        i = i + 1;
    }
    assert(views(texts@) =~= Seq::new(entries@.len(), |i: int| entries@[i].text@));
    join_with(&texts, "\n")
}

fn push_one_line(out: &mut String, t: &String)
    ensures
        final(out)@ == old(out)@ + one_line(t@),
{
    let n = t.as_str().unicode_len();
    let mut i: usize = 0;
    while i < n
        invariant
            n == t@.len(),
            i <= n,
            out@ == old(out)@ + one_line(t@).take(i as int),
        decreases n - i,
    {
        let start = i;
        let mut j = i;
        while j < n && t.as_str().get_char(j) != '\n'
            invariant
                n == t@.len(),
                start <= j <= n,
                forall|k: int| start <= k < j ==> t@[k] != '\n',
            decreases n - j,
        {
            j = j + 1;
        }
        out.append(t.as_str().substring_char(start, j));
        assert(one_line(t@).take(j as int) =~= one_line(t@).take(start as int) + t@.subrange(
            start as int,
            j as int,
        ));
        if j < n {
            proof {
                reveal_strlit(" ");
            }
            out.append(" ");
            assert(one_line(t@).take(j + 1) =~= one_line(t@).take(j as int) + seq![' ']);
            i = j + 1;
        } else {
            i = j;
        }
    }
    assert(one_line(t@).take(n as int) =~= one_line(t@));
}

/// The text of a Markdown script of `entries`.
pub fn markdown_file_text(entries: &Vec<SubtitleEntry>) -> (r: String)
    ensures
        r@ == markdown_file_spec(entries@),
{
    let mut out = String::from_str("# 视频脚本\n\n");
    let mut i: usize = 0;
    while i < entries.len()
        invariant
            i <= entries@.len(),
            out@ == "# 视频脚本\n\n"@ + markdown_body(entries@.take(i as int)),
        decreases entries@.len() - i,
    {
        let e = &entries[i];
        let ghost before = out@;
        out.append("**[");
        let a = e.start_time.to_simple_string();
        out.append(a.as_str());
        out.append(" - ");
        let b = e.end_time.to_simple_string();
        out.append(b.as_str());
        out.append("]** ");
        push_one_line(&mut out, &e.text);
        out.append("\n\n");
        assert(entries@.take(i + 1).drop_last() =~= entries@.take(i as int));
        assert(out@ =~= before + markdown_item(entries@[i as int]));
        i = i + 1;
    }
    assert(entries@.take(i as int) =~= entries@);
    trim_end_text(out.as_str())
}

} // verus!
