//! Canonical form of the generated DM bindings file: unified line breaks, trimmed lines, a
//! canonical header that selects the deployed library, one block per binding with direct
//! `call_ext` invocations, and blocks sorted by the path they define.
//!
//! Text is handled as character sequences. Strings order as their characters do, by code
//! point, which is the byte order of their UTF-8 encoding.
use vstd::prelude::*;

verus! {

/// The text with every `"\r\n"` and every remaining `'\r'` replaced by `'\n'`.
pub open spec fn unify_breaks(s: Seq<char>) -> Seq<char>
    decreases s.len(),
{
    if s.len() == 0 {
        s
    } else if s[0] == '\r' && s.len() > 1 && s[1] == '\n' {
        seq!['\n'] + unify_breaks(s.skip(2))
    } else if s[0] == '\r' {
        seq!['\n'] + unify_breaks(s.skip(1))
    } else {
        seq![s[0]] + unify_breaks(s.skip(1))
    }
}

/// The pieces of `s` between `'\n'` characters (one more piece than there are breaks).
pub open spec fn pieces(s: Seq<char>) -> Seq<Seq<char>>
    decreases s.len(),
{
    if s.len() == 0 {
        seq![Seq::<char>::empty()]
    } else {
        let earlier = pieces(s.drop_last());
        if s.last() == '\n' {
            earlier.push(Seq::<char>::empty())
        } else {
            earlier.update(earlier.len() - 1, earlier.last().push(s.last()))
        }
    }
}

/// The lines of `s`: its pieces, without the empty piece after a final `'\n'`; an empty text
/// has no lines. This is how std splits text without carriage returns into lines.
pub open spec fn split_lines(s: Seq<char>) -> Seq<Seq<char>> {
    if s.len() == 0 {
        Seq::empty()
    } else if s.last() == '\n' {
        pieces(s.drop_last())
    } else {
        pieces(s)
    }
}

/// Whether `c` is white space in the Unicode sense (std's `char::is_whitespace`).
pub open spec fn is_white(c: char) -> bool {
    ||| c == ' '
    ||| ('\u{9}' <= c && c <= '\u{d}')
    ||| c == '\u{85}'
    ||| c == '\u{a0}'
    ||| c == '\u{1680}'
    ||| ('\u{2000}' <= c && c <= '\u{200a}')
    ||| c == '\u{2028}'
    ||| c == '\u{2029}'
    ||| c == '\u{202f}'
    ||| c == '\u{205f}'
    ||| c == '\u{3000}'
}

/// `s` without its trailing white space.
pub open spec fn trim_end(s: Seq<char>) -> Seq<char>
    decreases s.len(),
{
    if s.len() > 0 && is_white(s.last()) {
        trim_end(s.drop_last())
    } else {
        s
    }
}

/// The character contents of each text.
pub open spec fn texts(v: Seq<Vec<char>>) -> Seq<Seq<char>> {
    v.map_values(|l: Vec<char>| l@)
}

/// Executable form of [`is_white`].
fn white(c: char) -> (r: bool)
    ensures
        r == is_white(c),
{
    c == ' ' || ('\u{9}' <= c && c <= '\u{d}') || c == '\u{85}' || c == '\u{a0}' || c == '\u{1680}'
        || ('\u{2000}' <= c && c <= '\u{200a}') || c == '\u{2028}' || c == '\u{2029}' || c
        == '\u{202f}' || c == '\u{205f}' || c == '\u{3000}'
}

/// The text with line breaks unified, as [`unify_breaks`] describes.
fn unified(s: &Vec<char>) -> (r: Vec<char>)
    ensures
        r@ == unify_breaks(s@),
{
    let mut out: Vec<char> = Vec::new();
    let mut index: usize = 0;
    proof {
        assert(s@.skip(0) =~= s@);
        assert(out@ + unify_breaks(s@) =~= unify_breaks(s@));
    }
    while index < s.len()
        invariant
            index <= s@.len(),
            out@ + unify_breaks(s@.skip(index as int)) == unify_breaks(s@),
        decreases s@.len() - index,
    {
        let ghost rest = s@.skip(index as int);
        let c = s[index];
        if c == '\r' && index + 1 < s.len() && s[index + 1] == '\n' {
            proof {
                assert(rest.skip(2) =~= s@.skip(index + 2));
            }
            out.push('\n');
            index += 2;
        } else {
            proof {
                assert(rest.skip(1) =~= s@.skip(index + 1));
            }
            if c == '\r' {
                out.push('\n');
            } else {
                out.push(c);
            }
            index += 1;
        }
        proof {
            assert(out@ + unify_breaks(s@.skip(index as int)) =~= unify_breaks(s@));
        }
    }
    proof {
        assert(s@.skip(index as int) =~= Seq::<char>::empty());
        assert(out@ + Seq::<char>::empty() =~= out@);
    }
    out
}

/// The lines of `s`, as [`split_lines`] describes.
fn lines_of(s: &Vec<char>) -> (r: Vec<Vec<char>>)
    ensures
        texts(r@) == split_lines(s@),
{
    let mut done: Vec<Vec<char>> = Vec::new();
    let mut current: Vec<char> = Vec::new();
    let mut index: usize = 0;
    proof {
        assert(s@.take(0) =~= Seq::<char>::empty());
        assert(texts(done@).push(current@) =~= pieces(s@.take(0)));
    }
    while index < s.len()
        invariant
            index <= s@.len(),
            texts(done@).push(current@) == pieces(s@.take(index as int)),
        decreases s@.len() - index,
    {
        let c = s[index];
        proof {
            assert(s@.take(index as int + 1).drop_last() =~= s@.take(index as int));
        }
        if c == '\n' {
            let finished = current;
            done.push(finished);
            current = Vec::new();
            proof {
                assert(texts(done@).push(current@) =~= pieces(s@.take(index as int + 1)));
            }
        } else {
            let ghost before = current@;
            current.push(c);
            proof {
                assert(texts(done@).push(current@) =~= pieces(s@.take(index as int + 1)));
            }
        }
        index += 1;
    }
    proof {
        assert(s@.take(index as int) =~= s@);
    }
    if s.len() == 0 {
        proof {
            assert(texts(done@) =~= Seq::<Seq<char>>::empty());
        }
        return done;
    }
    if s[s.len() - 1] == '\n' {
        proof {
            let whole = pieces(s@);
            assert(whole == pieces(s@.drop_last()).push(Seq::<char>::empty()));
            assert(texts(done@) =~= whole.drop_last());
        }
        return done;
    }
    done.push(current);
    proof {
        assert(texts(done@) =~= split_lines(s@));
    }
    done
}

/// `s` without trailing white space, as [`trim_end`] describes.
fn trimmed(s: &Vec<char>) -> (r: Vec<char>)
    ensures
        r@ == trim_end(s@),
{
    let mut end = s.len();
    proof {
        assert(s@.take(end as int) =~= s@);
    }
    while end > 0 && white(s[end - 1])
        invariant
            end <= s@.len(),
            trim_end(s@.take(end as int)) == trim_end(s@),
        decreases end,
    {
        proof {
            assert(s@.take(end as int).drop_last() =~= s@.take(end - 1));
        }
        end -= 1;
    }
    let mut out: Vec<char> = Vec::new();
    let mut index: usize = 0;
    while index < end
        invariant
            index <= end <= s@.len(),
            out@ == s@.take(index as int),
        decreases end - index,
    {
        out.push(s[index]);
        index += 1;
        proof {
            assert(out@ =~= s@.take(index as int));
        }
    }
    proof {
        assert(trim_end(s@.take(end as int)) == s@.take(end as int));
    }
    out
}

/// First line of the `#define` that names the library.
pub const DEFINE_PREFIX: &'static str = "#define ";

/// The generated line that declares the library-detection state.
pub const STATE_LINE: &'static str = "/* This comment bypasses grep checks */ /var/__dogmos";

/// The canonical library definition that replaces the detection code.
pub const LIBRARY_DEFINE: &'static str = "#define DOGMOS (world.system_type == UNIX ? \"libdogmos\" : \"dogmos\")";

/// Whether `s` begins with `p`.
pub open spec fn starts_with(s: Seq<char>, p: Seq<char>) -> bool {
    p.len() <= s.len() && s.take(p.len() as int) == p
}

/// Position of the first line of `lines` that satisfies `p`, or the number of lines.
pub open spec fn position(lines: Seq<Seq<char>>, p: spec_fn(Seq<char>) -> bool) -> int
    decreases lines.len(),
{
    if lines.len() == 0 {
        0
    } else {
        let earlier = position(lines.drop_last(), p);
        if earlier < lines.len() - 1 {
            earlier
        } else if p(lines.last()) {
            lines.len() - 1
        } else {
            lines.len() as int
        }
    }
}

/// Whether a line is `pattern` (when `whole`) or begins with it.
pub open spec fn matcher(pattern: Seq<char>, whole: bool) -> spec_fn(Seq<char>) -> bool {
    |l: Seq<char>| if whole {
        l == pattern
    } else {
        starts_with(l, pattern)
    }
}

/// `lines` without its trailing empty lines.
pub open spec fn strip_empty_tail(lines: Seq<Seq<char>>) -> Seq<Seq<char>>
    decreases lines.len(),
{
    if lines.len() > 0 && lines.last().len() == 0 {
        strip_empty_tail(lines.drop_last())
    } else {
        lines
    }
}

/// Number of leading lines that form the header: through the first `#define`.
pub open spec fn header_end(lines: Seq<Seq<char>>) -> int {
    let d = position(lines, matcher(DEFINE_PREFIX@, false));
    if d + 1 < lines.len() {
        d + 1
    } else {
        lines.len() as int
    }
}

/// The canonical header: up to the detection state (if the header has it) followed by a
/// blank line and the canonical library definition, or else the header as generated; never
/// ending in blank lines.
pub open spec fn canonical_header(lines: Seq<Seq<char>>) -> Seq<Seq<char>> {
    let end = header_end(lines);
    let head = lines.take(end);
    let state = position(head, matcher(STATE_LINE@, true));
    if state < end {
        strip_empty_tail(head.take(state)).push(Seq::<char>::empty()).push(LIBRARY_DEFINE@)
    } else {
        strip_empty_tail(head)
    }
}

/// Position of the first line that satisfies `p`, as [`position`] describes.
fn find_line(lines: &Vec<Vec<char>>, limit: usize, prefix: &str, whole: bool) -> (r: usize)
    requires
        limit <= lines@.len(),
    ensures
        r == position(texts(lines@).take(limit as int), matcher(prefix@, whole)),
{
    let ghost p = matcher(prefix@, whole);
    let mut pattern: Vec<char> = Vec::new();
    crate::text::push_str(&mut pattern, prefix);
    let mut index: usize = 0;
    while index < limit
        invariant
            index <= limit <= lines@.len(),
            pattern@ == prefix@,
            p == matcher(prefix@, whole),
            forall|k: int| 0 <= k < index ==> !p(#[trigger] texts(lines@)[k]),
        decreases limit - index,
    {
        let matched = if whole {
            same_text(&lines[index], &pattern)
        } else {
            begins_with(&lines[index], &pattern)
        };
        if matched {
            proof {
                lemma_position_first(texts(lines@).take(limit as int), p, index as int);
            }
            return index;
        }
        index += 1;
    }
    proof {
        lemma_position_none(texts(lines@).take(limit as int), p);
    }
    limit
}

/// The position of a line that satisfies `p` after none before it does.
proof fn lemma_position_first(lines: Seq<Seq<char>>, p: spec_fn(Seq<char>) -> bool, i: int)
    requires
        0 <= i < lines.len(),
        p(lines[i]),
        forall|k: int| 0 <= k < i ==> !p(#[trigger] lines[k]),
    ensures
        position(lines, p) == i,
    decreases lines.len(),
{
    if i < lines.len() - 1 {
        lemma_position_first(lines.drop_last(), p, i);
    } else {
        lemma_position_none(lines.drop_last(), p);
    }
}

/// Without a line that satisfies `p`, the position is the number of lines.
proof fn lemma_position_none(lines: Seq<Seq<char>>, p: spec_fn(Seq<char>) -> bool)
    requires
        forall|k: int| 0 <= k < lines.len() ==> !p(#[trigger] lines[k]),
    ensures
        position(lines, p) == lines.len(),
    decreases lines.len(),
{
    if lines.len() > 0 {
        lemma_position_none(lines.drop_last(), p);
    }
}

/// Whether `a` and `b` hold the same characters.
fn same_text(a: &Vec<char>, b: &Vec<char>) -> (r: bool)
    ensures
        r == (a@ == b@),
{
    if a.len() != b.len() {
        return false;
    }
    let mut index: usize = 0;
    while index < a.len()
        invariant
            a@.len() == b@.len(),
            index <= a@.len(),
            forall|k: int| 0 <= k < index ==> a@[k] == b@[k],
        decreases a@.len() - index,
    {
        if a[index] != b[index] {
            return false;
        }
        index += 1;
    }
    proof {
        assert(a@ =~= b@);
    }
    true
}

/// Whether `s` begins with `p`.
fn begins_with(s: &Vec<char>, p: &Vec<char>) -> (r: bool)
    ensures
        r == starts_with(s@, p@),
{
    if p.len() > s.len() {
        return false;
    }
    let mut index: usize = 0;
    while index < p.len()
        invariant
            p@.len() <= s@.len(),
            index <= p@.len(),
            forall|k: int| 0 <= k < index ==> s@[k] == p@[k],
        decreases p@.len() - index,
    {
        if s[index] != p[index] {
            proof {
                assert(s@.take(p@.len() as int)[index as int] != p@[index as int]);
            }
            return false;
        }
        index += 1;
    }
    proof {
        assert(s@.take(p@.len() as int) =~= p@);
    }
    true
}

/// A copy of `s`.
fn copy_text(s: &Vec<char>) -> (r: Vec<char>)
    ensures
        r@ == s@,
{
    let mut out: Vec<char> = Vec::new();
    let mut index: usize = 0;
    while index < s.len()
        invariant
            index <= s@.len(),
            out@ == s@.take(index as int),
        decreases s@.len() - index,
    {
        out.push(s[index]);
        index += 1;
        proof {
            assert(out@ =~= s@.take(index as int));
        }
    }
    proof {
        assert(s@.take(index as int) =~= s@);
    }
    out
}

/// The characters of `s`.
fn chars_of(s: &str) -> (r: Vec<char>)
    ensures
        r@ == s@,
{
    let mut out: Vec<char> = Vec::new();
    crate::text::push_str(&mut out, s);
    proof {
        assert(Seq::<char>::empty() + s@ =~= s@);
    }
    out
}

/// Copies of the first `count` lines, without trailing empty lines.
fn leading_lines(lines: &Vec<Vec<char>>, count: usize) -> (r: Vec<Vec<char>>)
    requires
        count <= lines@.len(),
    ensures
        texts(r@) == strip_empty_tail(texts(lines@).take(count as int)),
{
    let mut end = count;
    proof {
        assert(texts(lines@).take(end as int).take(end as int) =~= texts(lines@).take(end as int));
    }
    while end > 0 && lines[end - 1].len() == 0
        invariant
            end <= count <= lines@.len(),
            strip_empty_tail(texts(lines@).take(end as int)) == strip_empty_tail(texts(lines@).take(count as int)),
        decreases end,
    {
        proof {
            assert(texts(lines@).take(end as int).drop_last() =~= texts(lines@).take(end - 1));
        }
        end -= 1;
    }
    let mut out: Vec<Vec<char>> = Vec::new();
    let mut index: usize = 0;
    while index < end
        invariant
            index <= end <= lines@.len(),
            out@.len() == index,
            texts(out@) == texts(lines@).take(index as int),
        decreases end - index,
    {
        let line = copy_text(&lines[index]);
        let ghost before = out@;
        out.push(line);
        proof {
            assert forall|k: int| 0 <= k < index + 1 implies #[trigger] texts(out@)[k] == texts(lines@)[k] by {
                if k < index {
                    assert(out@[k] == before[k]);
                    assert(texts(before)[k] == texts(lines@).take(index as int)[k]);
                }
            }
        }
        index += 1;
        proof {
            assert(texts(out@) =~= texts(lines@).take(index as int));
        }
    }
    proof {
        let head = texts(lines@).take(end as int);
        assert(strip_empty_tail(head) == head);
    }
    out
}

/// The canonical header and the number of leading lines it replaces.
fn header_lines(lines: &Vec<Vec<char>>) -> (r: (Vec<Vec<char>>, usize))
    ensures
        texts(r.0@) == canonical_header(texts(lines@)),
        r.1 == header_end(texts(lines@)),
{
    proof {
        assert(texts(lines@).take(lines@.len() as int) =~= texts(lines@));
    }
    let define = find_line(lines, lines.len(), DEFINE_PREFIX, false);
    let end = if define < lines.len() && define + 1 < lines.len() {
        define + 1
    } else {
        lines.len()
    };
    proof {
        assert(texts(lines@).take(end as int).len() == end);
        assert(texts(lines@).take(end as int) =~= texts(lines@.take(end as int)));
    }
    let state = find_line(lines, end, STATE_LINE, true);
    if state < end {
        let mut header = leading_lines(lines, state);
        header.push(Vec::new());
        header.push(chars_of(LIBRARY_DEFINE));
        proof {
            let head = texts(lines@).take(end as int);
            assert(head.take(state as int) =~= texts(lines@).take(state as int));
            assert(texts(header@) =~= canonical_header(texts(lines@)));
        }
        (header, end)
    } else {
        let header = leading_lines(lines, end);
        (header, end)
    }
}

/// The runs of `lines` between empty lines (one more run than there are empty lines).
pub open spec fn groups(lines: Seq<Seq<char>>) -> Seq<Seq<Seq<char>>>
    decreases lines.len(),
{
    if lines.len() == 0 {
        seq![Seq::<Seq<char>>::empty()]
    } else {
        let earlier = groups(lines.drop_last());
        if lines.last().len() == 0 {
            earlier.push(Seq::<Seq<char>>::empty())
        } else {
            earlier.update(earlier.len() - 1, earlier.last().push(lines.last()))
        }
    }
}

/// There is always at least one run.
proof fn lemma_groups_len(lines: Seq<Seq<char>>)
    ensures
        groups(lines).len() >= 1,
    decreases lines.len(),
{
    if lines.len() > 0 {
        lemma_groups_len(lines.drop_last());
    }
}

/// Whether a run of lines is not empty.
pub open spec fn nonempty_run() -> spec_fn(Seq<Seq<char>>) -> bool {
    |run: Seq<Seq<char>>| run.len() > 0
}

/// The binding blocks of `lines`: its non-empty runs between empty lines.
pub open spec fn raw_blocks(lines: Seq<Seq<char>>) -> Seq<Seq<Seq<char>>> {
    groups(lines).filter(nonempty_run())
}

/// The line contents of each block.
pub open spec fn block_texts(v: Seq<Vec<Vec<char>>>) -> Seq<Seq<Seq<char>>> {
    v.map_values(|b: Vec<Vec<char>>| texts(b@))
}

/// The blocks of the lines from position `start` on, as [`raw_blocks`] describes.
fn split_blocks(lines: &Vec<Vec<char>>, start: usize) -> (r: Vec<Vec<Vec<char>>>)
    requires
        start <= lines@.len(),
    ensures
        block_texts(r@) == raw_blocks(texts(lines@).skip(start as int)),
{
    let ghost rest = texts(lines@).skip(start as int);
    let ghost keep = nonempty_run();
    let mut done: Vec<Vec<Vec<char>>> = Vec::new();
    let mut current: Vec<Vec<char>> = Vec::new();
    let mut index: usize = start;
    proof {
        assert(rest.take(0) =~= Seq::<Seq<char>>::empty());
        assert(texts(current@) =~= Seq::<Seq<char>>::empty());
        assert(groups(rest.take(0)).drop_last() =~= Seq::<Seq<Seq<char>>>::empty());
        reveal(Seq::filter);
        assert(block_texts(done@) =~= groups(rest.take(0)).drop_last().filter(keep));
    }
    while index < lines.len()
        invariant
            start <= index <= lines@.len(),
            rest == texts(lines@).skip(start as int),
            keep == nonempty_run(),
            current@.len() == texts(current@).len(),
            groups(rest.take(index - start)).len() >= 1,
            groups(rest.take(index - start)).last() == texts(current@),
            groups(rest.take(index - start)).drop_last().filter(keep) == block_texts(done@),
        decreases lines@.len() - index,
    {
        let ghost j = index - start;
        let ghost before = groups(rest.take(j));
        proof {
            lemma_groups_len(rest.take(j));
            assert(rest.take(j + 1).drop_last() =~= rest.take(j));
            assert(rest.take(j + 1).last() == texts(lines@)[index as int]);
        }
        if lines[index].len() == 0 {
            let ghost finished_view = texts(current@);
            let ghost done_before = done@;
            let finished = current;
            current = Vec::new();
            if finished.len() > 0 {
                done.push(finished);
            }
            proof {
                let after = groups(rest.take(j + 1));
                assert(after == before.push(Seq::<Seq<char>>::empty()));
                assert(after.drop_last() =~= before);
                assert(before =~= before.drop_last().push(finished_view));
                before.drop_last().lemma_filter_push(finished_view, keep);
                assert(texts(current@) =~= Seq::<Seq<char>>::empty());
                assert(block_texts(done@) =~= after.drop_last().filter(keep));
            }
        } else {
            let line = copy_text(&lines[index]);
            let ghost current_before = current@;
            current.push(line);
            proof {
                let after = groups(rest.take(j + 1));
                assert(after == before.update(before.len() - 1, before.last().push(texts(lines@)[index as int])));
                assert(after.drop_last() =~= before.drop_last());
                assert(texts(current@) =~= texts(current_before).push(texts(lines@)[index as int]));
            }
        }
        index += 1;
    }
    let ghost final_groups = groups(rest.take(index - start));
    proof {
        lemma_groups_len(rest.take(index - start));
    }
    let ghost done_before = done@;
    let ghost current_view = texts(current@);
    if current.len() > 0 {
        done.push(current);
    }
    proof {
        assert(rest.take(index - start) =~= rest);
        assert(final_groups =~= final_groups.drop_last().push(current_view));
        final_groups.drop_last().lemma_filter_push(current_view, keep);
        assert(block_texts(done@) =~= raw_blocks(rest));
    }
    done
}

/// The generated line that loads the library and names the function.
pub const LOAD_PREFIX: &'static str = "\tvar/static/loaded = load_ext(DOGMOS, ";

/// The generated line that calls the loaded function.
pub const RETURN_PREFIX: &'static str = "\treturn call_ext(loaded)";

/// The direct call that replaces a load and its call.
pub const CALL_PREFIX: &'static str = "\treturn call_ext(DOGMOS, ";

/// `parts` joined with `sep` between consecutive parts.
pub open spec fn join(parts: Seq<Seq<char>>, sep: Seq<char>) -> Seq<char>
    decreases parts.len(),
{
    if parts.len() == 0 {
        Seq::empty()
    } else if parts.len() == 1 {
        parts[0]
    } else {
        join(parts.drop_last(), sep) + sep + parts.last()
    }
}

/// Whether a line loads the library: the load prefix, a function name, and `)`.
pub open spec fn is_load(line: Seq<char>) -> bool {
    &&& starts_with(line, LOAD_PREFIX@)
    &&& line.len() > LOAD_PREFIX@.len()
    &&& line.last() == ')'
}

/// The direct call that replaces the load line `load` and the call line `call`.
pub open spec fn merged(load: Seq<char>, call: Seq<char>) -> Seq<char> {
    CALL_PREFIX@ + load.subrange(LOAD_PREFIX@.len() as int, load.len() - 1) + ")"@ + call.skip(
        RETURN_PREFIX@.len() as int,
    )
}

/// The lines of block `b` from position `i` on, with each load line and its call line
/// merged into one direct call.
pub open spec fn block_lines(b: Seq<Seq<char>>, i: int) -> Seq<Seq<char>>
    decreases b.len() - i,
{
    if i < 0 || i >= b.len() {
        Seq::empty()
    } else if is_load(b[i]) && i + 1 < b.len() {
        seq![merged(b[i], b[i + 1])] + block_lines(b, i + 2)
    } else {
        seq![b[i]] + block_lines(b, i + 1)
    }
}

/// Whether every load line of block `b` from position `i` on is followed by a call line.
pub open spec fn paired(b: Seq<Seq<char>>, i: int) -> bool
    decreases b.len() - i,
{
    if i < 0 || i >= b.len() {
        true
    } else if is_load(b[i]) {
        i + 1 < b.len() && starts_with(b[i + 1], RETURN_PREFIX@) && paired(b, i + 2)
    } else {
        paired(b, i + 1)
    }
}

/// The normalized text of block `b`: its lines with loads merged, joined by line breaks.
pub open spec fn block_text(b: Seq<Seq<char>>) -> Seq<char> {
    join(block_lines(b, 0), "\n"@)
}

/// Appends `s[from..to]` to `out`.
fn push_range(out: &mut Vec<char>, s: &Vec<char>, from: usize, to: usize)
    requires
        from <= to <= s@.len(),
    ensures
        final(out)@ == old(out)@ + s@.subrange(from as int, to as int),
{
    let mut index = from;
    while index < to
        invariant
            from <= index <= to <= s@.len(),
            out@ == old(out)@ + s@.subrange(from as int, index as int),
        decreases to - index,
    {
        out.push(s[index]);
        index += 1;
        proof {
            assert(out@ =~= old(out)@ + s@.subrange(from as int, index as int));
        }
    }
}

/// The normalized text of a block, as [`block_text`] describes.
fn normalize_generated_binding_block(block: &Vec<Vec<char>>) -> (r: Vec<char>)
    requires
        paired(texts(block@), 0),
    ensures
        r@ == block_text(texts(block@)),
{
    let ghost b = texts(block@);
    let load = chars_of(LOAD_PREFIX);
    let call = chars_of(RETURN_PREFIX);
    let mut out: Vec<char> = Vec::new();
    let ghost mut produced: Seq<Seq<char>> = Seq::empty();
    let mut index: usize = 0;
    proof {
        reveal_with_fuel(join, 1);
    }
    while index < block.len()
        invariant
            b == texts(block@),
            b.len() == block@.len(),
            load@ == LOAD_PREFIX@,
            call@ == RETURN_PREFIX@,
            index <= block@.len(),
            paired(b, index as int),
            (index == 0) == (produced.len() == 0),
            produced + block_lines(b, index as int) == block_lines(b, 0),
            out@ == join(produced, "\n"@),
        decreases block@.len() - index,
    {
        let line = &block[index];
        proof {
            assert(line@ == b[index as int]);
        }
        let ghost produced_before = produced;
        let ghost out_before = out@;
        if index > 0 {
            out.push('\n');
        }
        let loads = begins_with(line, &load) && line.len() > load.len() && line[line.len() - 1] == ')';
        if loads {
            let next = &block[index + 1];
            proof {
                assert(next@ == b[index + 1]);
            }
            crate::text::push_str(&mut out, CALL_PREFIX);
            push_range(&mut out, line, load.len(), line.len() - 1);
            out.push(')');
            push_range(&mut out, next, call.len(), next.len());
            proof {
                let m = merged(b[index as int], b[index + 1]);
                produced = produced_before.push(m);
                assert(seq![m] + block_lines(b, index + 2) == block_lines(b, index as int));
                assert(produced + block_lines(b, index + 2) =~= produced_before + block_lines(b, index as int));
                assert(")"@ =~= seq![')']) by {
                    reveal_strlit(")");
                }
                assert(out@ =~= join(produced, "\n"@)) by {
                    reveal_strlit("\n");
                    if produced_before.len() > 0 {
                        assert(produced.drop_last() =~= produced_before);
                    }
                }
            }
            index += 2;
        } else {
            push_range(&mut out, line, 0, line.len());
            proof {
                produced = produced_before.push(b[index as int]);
                assert(seq![b[index as int]] + block_lines(b, index + 1) == block_lines(b, index as int));
                assert(produced + block_lines(b, index + 1) =~= produced_before + block_lines(b, index as int));
                assert(line@.subrange(0, line@.len() as int) =~= line@);
                assert(out@ =~= join(produced, "\n"@)) by {
                    reveal_strlit("\n");
                    if produced_before.len() > 0 {
                        assert(produced.drop_last() =~= produced_before);
                    }
                }
            }
            index += 1;
        }
    }
    proof {
        assert(block_lines(b, index as int) =~= Seq::<Seq<char>>::empty());
        assert(produced =~= block_lines(b, 0));
    }
    out
}

/// Whether a line names what its block defines: a path or a `#define`.
pub open spec fn keyed_line() -> spec_fn(Seq<char>) -> bool {
    |l: Seq<char>| (l.len() > 0 && l[0] == '/') || starts_with(l, DEFINE_PREFIX@)
}

/// The text a block sorts by: its first line that names a path or a `#define`, or the whole
/// block when no line does.
pub open spec fn sort_key(text: Seq<char>) -> Seq<char> {
    let ls = split_lines(text);
    let k = position(ls, keyed_line());
    if k < ls.len() {
        ls[k]
    } else {
        text
    }
}

/// Lexicographic order on texts by code point.
pub open spec fn text_lt(a: Seq<char>, b: Seq<char>) -> bool
    decreases a.len(),
{
    if a.len() == 0 {
        b.len() > 0
    } else if b.len() == 0 {
        false
    } else if a[0] != b[0] {
        a[0] < b[0]
    } else {
        text_lt(a.skip(1), b.skip(1))
    }
}

/// Whether block `a` sorts before block `b`: by sort key, then by the whole text.
pub open spec fn block_before(a: Seq<char>, b: Seq<char>) -> bool {
    text_lt(sort_key(a), sort_key(b)) || (sort_key(a) == sort_key(b) && text_lt(a, b))
}

/// Whether `blocks` is in sorted order.
pub open spec fn blocks_sorted(blocks: Seq<Seq<char>>) -> bool {
    forall|i: int, j: int| 0 <= i < j < blocks.len() ==> !block_before(#[trigger] blocks[j], #[trigger] blocks[i])
}

/// The order on texts is transitive.
pub proof fn lemma_text_lt_transitive(a: Seq<char>, b: Seq<char>, c: Seq<char>)
    requires
        text_lt(a, b),
        text_lt(b, c),
    ensures
        text_lt(a, c),
    decreases a.len(),
{
    if a.len() > 0 && b.len() > 0 && c.len() > 0 && a[0] == b[0] && b[0] == c[0] {
        lemma_text_lt_transitive(a.skip(1), b.skip(1), c.skip(1));
    }
}

/// The order on texts is irreflexive and asymmetric.
pub proof fn lemma_text_lt_asymmetric(a: Seq<char>, b: Seq<char>)
    ensures
        !(text_lt(a, b) && text_lt(b, a)),
    decreases a.len(),
{
    if a.len() > 0 && b.len() > 0 && a[0] == b[0] {
        lemma_text_lt_asymmetric(a.skip(1), b.skip(1));
    }
}

/// Distinct texts are ordered one way or the other.
pub proof fn lemma_text_lt_total(a: Seq<char>, b: Seq<char>)
    requires
        a != b,
    ensures
        text_lt(a, b) || text_lt(b, a),
    decreases a.len(),
{
    if a.len() > 0 && b.len() > 0 && a[0] == b[0] {
        if a.skip(1) == b.skip(1) {
            assert(a =~= seq![a[0]] + a.skip(1));
            assert(b =~= seq![b[0]] + b.skip(1));
        }
        lemma_text_lt_total(a.skip(1), b.skip(1));
    } else if a.len() > 0 && b.len() > 0 {
        assert(a[0] != b[0]);
    } else if a.len() == 0 && b.len() == 0 {
        assert(a =~= b);
    }
}

/// The block order is transitive.
pub proof fn lemma_block_before_transitive(a: Seq<char>, b: Seq<char>, c: Seq<char>)
    requires
        block_before(a, b),
        block_before(b, c),
    ensures
        block_before(a, c),
{
    let (ka, kb, kc) = (sort_key(a), sort_key(b), sort_key(c));
    if text_lt(ka, kb) && text_lt(kb, kc) {
        lemma_text_lt_transitive(ka, kb, kc);
    } else if text_lt(ka, kb) {
    } else if text_lt(kb, kc) {
    } else {
        lemma_text_lt_transitive(a, b, c);
    }
}

/// Distinct blocks are ordered one way or the other, never both.
pub proof fn lemma_block_before_total(a: Seq<char>, b: Seq<char>)
    ensures
        a != b ==> block_before(a, b) || block_before(b, a),
        !(block_before(a, b) && block_before(b, a)),
{
    let (ka, kb) = (sort_key(a), sort_key(b));
    lemma_text_lt_asymmetric(ka, kb);
    lemma_text_lt_asymmetric(a, b);
    if ka != kb {
        lemma_text_lt_total(ka, kb);
    } else if a != b {
        lemma_text_lt_total(a, b);
    }
}

/// The sorted arrangement of a collection of blocks is unique, so the canonical form of a
/// bindings file is determined by its blocks.
pub proof fn lemma_sorted_arrangement_unique(x: Seq<Seq<char>>, y: Seq<Seq<char>>)
    requires
        x.to_multiset() == y.to_multiset(),
        blocks_sorted(x),
        blocks_sorted(y),
    ensures
        x == y,
    decreases x.len(),
{
    broadcast use vstd::seq_lib::group_to_multiset_ensures;
    broadcast use vstd::multiset::group_multiset_axioms;

    assert(x.len() == y.len()) by {
        assert(x.len() == x.to_multiset().len());
        assert(y.len() == y.to_multiset().len());
    }
    if x.len() > 0 {
        let (a, b) = (x[0], y[0]);
        assert(y.to_multiset().count(a) > 0) by {
            assert(x.contains(a));
        }
        assert(x.to_multiset().count(b) > 0) by {
            assert(y.contains(b));
        }
        let i = choose|i: int| 0 <= i < y.len() && #[trigger] y[i] == a;
        let j = choose|j: int| 0 <= j < x.len() && #[trigger] x[j] == b;
        if a != b {
            lemma_block_before_total(a, b);
            if block_before(a, b) {
                assert(j > 0);
                assert(!block_before(x[j], x[0]));
                assert(!block_before(b, a));
                assert(i > 0);
                assert(!block_before(y[i], y[0]));
            } else {
                assert(i > 0);
                assert(!block_before(y[i], y[0]));
            }
        }
        let (xs, ys) = (x.drop_first(), y.drop_first());
        assert(x =~= seq![a] + xs);
        assert(y =~= seq![a] + ys);
        assert(x.remove(0) =~= xs);
        assert(y.remove(0) =~= ys);
        assert(xs.to_multiset() =~= ys.to_multiset());
        assert(blocks_sorted(xs)) by {
            assert forall|p: int, q: int| 0 <= p < q < xs.len() implies !block_before(#[trigger] xs[q], #[trigger] xs[p]) by {
                assert(xs[q] == x[q + 1] && xs[p] == x[p + 1]);
            }
        }
        assert(blocks_sorted(ys)) by {
            assert forall|p: int, q: int| 0 <= p < q < ys.len() implies !block_before(#[trigger] ys[q], #[trigger] ys[p]) by {
                assert(ys[q] == y[q + 1] && ys[p] == y[p + 1]);
            }
        }
        lemma_sorted_arrangement_unique(xs, ys);
    } else {
        assert(x =~= y);
    }
}

/// Executable form of [`text_lt`].
fn text_less(a: &Vec<char>, b: &Vec<char>) -> (r: bool)
    ensures
        r == text_lt(a@, b@),
{
    let mut index: usize = 0;
    proof {
        assert(a@.skip(0) =~= a@);
        assert(b@.skip(0) =~= b@);
    }
    while index < a.len() && index < b.len()
        invariant
            index <= a@.len(),
            index <= b@.len(),
            text_lt(a@.skip(index as int), b@.skip(index as int)) == text_lt(a@, b@),
        decreases a@.len() - index,
    {
        let (x, y) = (a[index], b[index]);
        if x != y {
            return x < y;
        }
        proof {
            assert(a@.skip(index as int).skip(1) =~= a@.skip(index + 1));
            assert(b@.skip(index as int).skip(1) =~= b@.skip(index + 1));
        }
        index += 1;
    }
    a.len() < b.len()
}

/// The sort key of a block, as [`sort_key`] describes.
fn binding_sort_key(text: &Vec<char>) -> (r: Vec<char>)
    ensures
        r@ == sort_key(text@),
{
    let lines = lines_of(text);
    let define = chars_of(DEFINE_PREFIX);
    let ghost ls = texts(lines@);
    let mut index: usize = 0;
    while index < lines.len()
        invariant
            ls == texts(lines@),
            ls == split_lines(text@),
            define@ == DEFINE_PREFIX@,
            index <= lines@.len(),
            forall|k: int| 0 <= k < index ==> !(keyed_line())(#[trigger] ls[k]),
        decreases lines@.len() - index,
    {
        let line = &lines[index];
        proof {
            assert(line@ == ls[index as int]);
        }
        if (line.len() > 0 && line[0] == '/') || begins_with(line, &define) {
            proof {
                lemma_position_first(ls, keyed_line(), index as int);
            }
            return copy_text(line);
        }
        index += 1;
    }
    proof {
        lemma_position_none(ls, keyed_line());
    }
    copy_text(text)
}

/// `blocks` in sorted order.
fn sort_blocks(blocks: &Vec<Vec<char>>) -> (r: Vec<Vec<char>>)
    ensures
        texts(r@).to_multiset() == texts(blocks@).to_multiset(),
        blocks_sorted(texts(r@)),
{
    broadcast use vstd::seq_lib::group_to_multiset_ensures;
    broadcast use vstd::multiset::group_multiset_axioms;

    let mut sorted: Vec<Vec<char>> = Vec::new();
    let mut keys: Vec<Vec<char>> = Vec::new();
    let mut index: usize = 0;
    proof {
        assert(texts(sorted@) =~= texts(blocks@).take(0));
    }
    while index < blocks.len()
        invariant
            index <= blocks@.len(),
            keys@.len() == sorted@.len(),
            forall|k: int| 0 <= k < keys@.len() ==> #[trigger] keys@[k]@ == sort_key(sorted@[k]@),
            texts(sorted@).len() == sorted@.len(),
            texts(sorted@).to_multiset() == texts(blocks@).take(index as int).to_multiset(),
            blocks_sorted(texts(sorted@)),
        decreases blocks@.len() - index,
    {
        let block = copy_text(&blocks[index]);
        let key = binding_sort_key(&block);
        let mut pos: usize = 0;
        while pos < sorted.len() && !(text_less(&key, &keys[pos]) || (same_text(&key, &keys[pos]) && text_less(
            &block,
            &sorted[pos],
        )))
            invariant
                pos <= sorted@.len(),
                keys@.len() == sorted@.len(),
                forall|k: int| 0 <= k < keys@.len() ==> #[trigger] keys@[k]@ == sort_key(sorted@[k]@),
                key@ == sort_key(block@),
                forall|k: int| 0 <= k < pos ==> !block_before(block@, #[trigger] texts(sorted@)[k]),
            decreases sorted@.len() - pos,
        {
            proof {
                assert(keys@[pos as int]@ == sort_key(sorted@[pos as int]@));
            }
            pos += 1;
        }
        proof {
            if pos < sorted@.len() {
                assert(keys@[pos as int]@ == sort_key(sorted@[pos as int]@));
                assert(block_before(block@, texts(sorted@)[pos as int]));
            }
        }
        let ghost before = texts(sorted@);
        let ghost before_keys = keys@;
        let ghost block_view = block@;
        let ghost sorted_before = sorted@;
        sorted.insert(pos, block);
        keys.insert(pos, key);
        proof {
            assert(texts(sorted@) =~= before.insert(pos as int, block_view));
            crate::transaction::lemma_insert_multiset(before, pos as int, block_view);
            assert(texts(blocks@)[index as int] == block_view);
            assert(texts(blocks@).take(index + 1) =~= texts(blocks@).take(index as int).push(block_view));
            vstd::seq_lib::to_multiset_build(texts(blocks@).take(index as int), block_view);
            assert(texts(sorted@).to_multiset() =~= before.to_multiset().insert(block_view));
            let now = texts(sorted@);
            assert forall|k: int| 0 <= k < keys@.len() implies #[trigger] keys@[k]@ == sort_key(sorted@[k]@) by {
                if k < pos {
                    assert(keys@[k] == before_keys[k]);
                    assert(sorted@[k] == sorted_before[k]);
                } else if k > pos {
                    assert(keys@[k] == before_keys[k - 1]);
                    assert(sorted@[k] == sorted_before[k - 1]);
                }
            }
            assert forall|i: int, j: int| 0 <= i < j < now.len() implies !block_before(#[trigger] now[j], #[trigger] now[i]) by {
                if i < pos && j == pos {
                    assert(now[i] == before[i]);
                } else if i < pos && j > pos {
                    assert(now[i] == before[i]);
                    assert(now[j] == before[j - 1]);
                } else if i == pos && j > pos {
                    assert(now[j] == before[j - 1]);
                    if block_before(now[j], block_view) {
                        lemma_block_before_transitive(now[j], block_view, before[pos as int]);
                        if j - 1 > pos {
                            assert(!block_before(before[j - 1], before[pos as int]));
                        } else {
                            lemma_text_lt_asymmetric(sort_key(before[pos as int]), sort_key(before[pos as int]));
                            lemma_text_lt_asymmetric(before[pos as int], before[pos as int]);
                        }
                    }
                } else if i > pos {
                    assert(now[i] == before[i - 1]);
                    assert(now[j] == before[j - 1]);
                }
            }
        }
        index += 1;
    }
    proof {
        assert(texts(blocks@).take(index as int) =~= texts(blocks@));
    }
    sorted
}

/// The lines of generated bindings: line breaks unified, each line without trailing white
/// space.
pub open spec fn text_lines(s: Seq<char>) -> Seq<Seq<char>> {
    split_lines(unify_breaks(s)).map_values(|l: Seq<char>| trim_end(l))
}

/// The binding blocks after the header.
pub open spec fn binding_blocks(s: Seq<char>) -> Seq<Seq<Seq<char>>> {
    let ls = text_lines(s);
    raw_blocks(ls.skip(header_end(ls)))
}

/// Whether every load line of every binding block is followed by its call line.
pub open spec fn bindings_well_paired(s: Seq<char>) -> bool {
    forall|i: int| 0 <= i < binding_blocks(s).len() ==> paired(#[trigger] binding_blocks(s)[i], 0)
}

/// The normalized text of each binding block, in generated order.
pub open spec fn normalized_blocks(s: Seq<char>) -> Seq<Seq<char>> {
    binding_blocks(s).map_values(|b: Seq<Seq<char>>| block_text(b))
}

/// The canonical file: the header lines, then (when there are any) a blank line and the
/// blocks separated by blank lines, and a final line break.
pub open spec fn render(header: Seq<Seq<char>>, blocks: Seq<Seq<char>>) -> Seq<char> {
    join(header, "\n"@) + (if blocks.len() > 0 {
        "\n\n"@ + join(blocks, "\n\n"@)
    } else {
        Seq::empty()
    }) + "\n"@
}

/// Appends `parts` joined with `sep` to `out`.
fn push_joined(out: &mut Vec<char>, parts: &Vec<Vec<char>>, sep: &str)
    ensures
        final(out)@ == old(out)@ + join(texts(parts@), sep@),
{
    let mut index: usize = 0;
    proof {
        assert(texts(parts@).take(0) =~= Seq::<Seq<char>>::empty());
        assert(old(out)@ + join(texts(parts@).take(0), sep@) =~= old(out)@);
    }
    while index < parts.len()
        invariant
            index <= parts@.len(),
            out@ == old(out)@ + join(texts(parts@).take(index as int), sep@),
        decreases parts@.len() - index,
    {
        let ghost before = out@;
        if index > 0 {
            crate::text::push_str(out, sep);
        }
        push_range(out, &parts[index], 0, parts[index].len());
        proof {
            let shorter = texts(parts@).take(index as int);
            let longer = texts(parts@).take(index + 1);
            assert(longer.drop_last() =~= shorter);
            assert(longer.last() == parts@[index as int]@);
            assert(parts@[index as int]@.subrange(0, parts@[index as int]@.len() as int) =~= parts@[index as int]@);
            assert(out@ =~= old(out)@ + join(longer, sep@));
        }
        index += 1;
    }
    proof {
        assert(texts(parts@).take(index as int) =~= texts(parts@));
    }
}

/// The trimmed lines of generated bindings, as [`text_lines`] describes.
fn bindings_lines(bindings: &str) -> (r: Vec<Vec<char>>)
    ensures
        texts(r@) == text_lines(bindings@),
{
    let chars = chars_of(bindings);
    let unified_text = unified(&chars);
    let raw = lines_of(&unified_text);
    let mut lines: Vec<Vec<char>> = Vec::new();
    let mut index: usize = 0;
    while index < raw.len()
        invariant
            index <= raw@.len(),
            lines@.len() == index,
            texts(lines@) == texts(raw@).take(index as int).map_values(|l: Seq<char>| trim_end(l)),
        decreases raw@.len() - index,
    {
        let line = trimmed(&raw[index]);
        let ghost before = lines@;
        lines.push(line);
        proof {
            assert forall|k: int| 0 <= k < index + 1 implies #[trigger] texts(lines@)[k] == texts(raw@).take(
                index + 1,
            ).map_values(|l: Seq<char>| trim_end(l))[k] by {
                if k < index {
                    assert(lines@[k] == before[k]);
                    assert(texts(before)[k] == texts(raw@).take(index as int).map_values(|l: Seq<char>| trim_end(l))[k]);
                }
            }
            assert(texts(lines@) =~= texts(raw@).take(index + 1).map_values(|l: Seq<char>| trim_end(l)));
        }
        index += 1;
    }
    proof {
        assert(texts(raw@).take(index as int) =~= texts(raw@));
        assert(texts(lines@) == text_lines(bindings@));
    }
    lines
}

/// The canonical header and the binding blocks of generated bindings.
fn parse_bindings(bindings: &str) -> (r: (Vec<Vec<char>>, Vec<Vec<Vec<char>>>))
    ensures
        texts(r.0@) == canonical_header(text_lines(bindings@)),
        block_texts(r.1@) == binding_blocks(bindings@),
{
    let lines = bindings_lines(bindings);
    let (header, end) = header_lines(&lines);
    let blocks = split_blocks(&lines, end);
    (header, blocks)
}

/// Whether every load line of `block` is followed by its call line, as [`paired`] describes.
fn block_is_paired(block: &Vec<Vec<char>>) -> (r: bool)
    ensures
        r == paired(texts(block@), 0),
{
    let ghost b = texts(block@);
    let load = chars_of(LOAD_PREFIX);
    let call = chars_of(RETURN_PREFIX);
    let mut index: usize = 0;
    while index < block.len()
        invariant
            b == texts(block@),
            b.len() == block@.len(),
            load@ == LOAD_PREFIX@,
            call@ == RETURN_PREFIX@,
            index <= block@.len() + 1,
            paired(b, index as int) == paired(b, 0),
        decreases block@.len() + 1 - index,
    {
        let line = &block[index];
        proof {
            assert(line@ == b[index as int]);
        }
        if begins_with(line, &load) && line.len() > load.len() && line[line.len() - 1] == ')' {
            if index + 1 >= block.len() || !begins_with(&block[index + 1], &call) {
                return false;
            }
            index += 2;
        } else {
            index += 1;
        }
    }
    true
}

/// Whether generated bindings can be normalized: every load line of every binding block is
/// followed by its call line, as [`bindings_well_paired`] describes.
pub fn bindings_are_paired(bindings: &str) -> (r: bool)
    ensures
        r == bindings_well_paired(bindings@),
{
    let (_, blocks) = parse_bindings(bindings);
    let mut index: usize = 0;
    while index < blocks.len()
        invariant
            index <= blocks@.len(),
            block_texts(blocks@) == binding_blocks(bindings@),
            forall|i: int| 0 <= i < index ==> paired(#[trigger] binding_blocks(bindings@)[i], 0),
        decreases blocks@.len() - index,
    {
        proof {
            assert(block_texts(blocks@)[index as int] == texts(blocks@[index as int]@));
        }
        if !block_is_paired(&blocks[index]) {
            return false;
        }
        index += 1;
    }
    true
}

/// The canonical form of generated bindings: line breaks unified and trailing white space
/// removed; the header cut after its first `#define`, with generated library detection
/// replaced by the canonical library definition and trailing blank lines dropped; each
/// binding block with its load and call lines merged into one direct call; and the blocks
/// sorted by the path or `#define` they name, then by their text.
pub fn normalize_generated_bindings(bindings: &str) -> (r: String)
    requires
        bindings_well_paired(bindings@),
    ensures
        exists|arranged: Seq<Seq<char>>|
            arranged.to_multiset() == normalized_blocks(bindings@).to_multiset() && blocks_sorted(arranged)
                && r@ == render(canonical_header(text_lines(bindings@)), arranged),
{
    let (header, blocks) = parse_bindings(bindings);
    let mut normalized: Vec<Vec<char>> = Vec::new();
    let mut position: usize = 0;
    while position < blocks.len()
        invariant
            position <= blocks@.len(),
            block_texts(blocks@) == binding_blocks(bindings@),
            bindings_well_paired(bindings@),
            normalized@.len() == position,
            texts(normalized@) == binding_blocks(bindings@).take(position as int).map_values(
                |b: Seq<Seq<char>>| block_text(b),
            ),
        decreases blocks@.len() - position,
    {
        proof {
            assert(block_texts(blocks@)[position as int] == texts(blocks@[position as int]@));
            assert(paired(binding_blocks(bindings@)[position as int], 0));
        }
        let text = normalize_generated_binding_block(&blocks[position]);
        let ghost before = normalized@;
        normalized.push(text);
        proof {
            let spec_now = binding_blocks(bindings@).take(position + 1).map_values(
                |b: Seq<Seq<char>>| block_text(b),
            );
            assert forall|k: int| 0 <= k < position + 1 implies #[trigger] texts(normalized@)[k] == spec_now[k] by {
                if k < position {
                    assert(normalized@[k] == before[k]);
                    assert(texts(before)[k] == binding_blocks(bindings@).take(position as int).map_values(
                        |b: Seq<Seq<char>>| block_text(b),
                    )[k]);
                }
            }
            assert(texts(normalized@) =~= spec_now);
        }
        position += 1;
    }
    proof {
        assert(binding_blocks(bindings@).take(position as int) =~= binding_blocks(bindings@));
        assert(texts(normalized@) == normalized_blocks(bindings@));
    }
    let sorted = sort_blocks(&normalized);
    let mut out: Vec<char> = Vec::new();
    push_joined(&mut out, &header, "\n");
    let ghost after_header = out@;
    if sorted.len() > 0 {
        crate::text::push_str(&mut out, "\n\n");
        push_joined(&mut out, &sorted, "\n\n");
    }
    let ghost after_blocks = out@;
    crate::text::push_str(&mut out, "\n");
    proof {
        let arranged = texts(sorted@);
        assert(Seq::<char>::empty() + join(texts(header@), "\n"@) =~= join(texts(header@), "\n"@));
        if sorted@.len() > 0 {
            assert(after_blocks =~= join(texts(header@), "\n"@) + ("\n\n"@ + join(arranged, "\n\n"@)));
        } else {
            assert(after_blocks =~= join(texts(header@), "\n"@) + Seq::<char>::empty());
        }
        assert(out@ =~= render(canonical_header(text_lines(bindings@)), arranged));
    }
    crate::text::string_from_chars(out.as_slice())
}

} // verus!
