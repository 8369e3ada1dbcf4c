//! Task files and map metadata.
//!
//! A task file has one waypoint per line: `x y [yaw_deg] [dwell_sec]`. Lines that
//! start with `#` and blank lines are ignored.
use crate::grid::GridMapParams;
use crate::grid_file::yaml_text;
use crate::scalar::{greater_of, greater_spec, lt, zero};
use crate::task::TaskWaypoint;
use crate::text::{
    after_prefix, back_cut, chars_of, decimal, front_cut, is_space, lemma_back_cut, lemma_front_cut,
    lemma_one_piece, lemma_pieces_around, pieces, push_decimal, split, split_words, strip_prefix,
    texts, trim, trim_back, trim_front, trimmed, words, TextNumber,
};
use vstd::prelude::*;
use vstd::string::StringExecFns;

verus! {

/// Why a task cannot be loaded.
#[derive(Clone, Copy, Debug, PartialEq, Eq, Structural)]
pub enum TaskError {
    /// The first word of a line is no number; with the number of the line.
    BadX(usize),
    /// The second word of a line is missing or no number.
    BadY(usize),
    /// There is no waypoint.
    Empty,
}

/// The number that word `i` stands for.
pub open spec fn number_at<S: TextNumber>(ws: Seq<Seq<char>>, i: int) -> Option<S> {
    if i < ws.len() {
        S::read_spec(ws[i])
    } else {
        None
    }
}

/// The waypoint of a line: none for a blank line or a comment.
pub open spec fn line_waypoint<S: TextNumber>(line: Seq<char>, no: usize) -> Result<
    Option<TaskWaypoint<S>>,
    TaskError,
> {
    let t = trimmed(line);
    let ws = words(t);
    if t.len() == 0 || t[0] == '#' {
        Ok(None)
    } else {
        match (number_at::<S>(ws, 0), number_at::<S>(ws, 1)) {
            (None, _) => Err(TaskError::BadX(no)),
            (_, None) => Err(TaskError::BadY(no)),
            (Some(x), Some(y)) => Ok(
                Some(
                    TaskWaypoint {
                        x,
                        y,
                        yaw_deg: match number_at::<S>(ws, 2) {
                            Some(yaw) => if yaw.is_finite() {
                                Some(yaw)
                            } else {
                                None
                            },
                            None => None,
                        },
                        dwell_s: greater_spec(
                            match number_at::<S>(ws, 3) {
                                Some(d) => d,
                                None => zero(),
                            },
                            zero(),
                        ),
                    },
                ),
            ),
        }
    }
}

/// The waypoints of the first `k` lines, or the first error in them.
pub open spec fn waypoints_in<S: TextNumber>(lines: Seq<Seq<char>>, k: nat) -> Result<
    Seq<TaskWaypoint<S>>,
    TaskError,
>
    decreases k,
{
    if k == 0 {
        Ok(Seq::empty())
    } else {
        match waypoints_in::<S>(lines, (k - 1) as nat) {
            Err(e) => Err(e),
            Ok(s) => match line_waypoint::<S>(lines[k - 1], k as usize) {
                Err(e) => Err(e),
                Ok(None) => Ok(s),
                Ok(Some(wp)) => Ok(s.push(wp)),
            },
        }
    }
}

/// The task of a text.
pub open spec fn task_in<S: TextNumber>(text: Seq<char>) -> Result<Seq<TaskWaypoint<S>>, TaskError> {
    let lines = pieces(text, '\n');
    match waypoints_in::<S>(lines, lines.len()) {
        Err(e) => Err(e),
        Ok(s) => if s.len() == 0 {
            Err(TaskError::Empty)
        } else {
            Ok(s)
        },
    }
}

/// The message for an error in the file `path`.
pub open spec fn error_text(path: Seq<char>, e: TaskError) -> Seq<char> {
    match e {
        TaskError::BadX(no) => path + ":"@ + decimal(no as nat) + ": bad x"@,
        TaskError::BadY(no) => path + ":"@ + decimal(no as nat) + ": bad y"@,
        TaskError::Empty => path + ": no waypoints"@,
    }
}

fn read_at<S: TextNumber>(ws: &Vec<Vec<char>>, i: usize) -> (r: Option<S>)
    ensures
        r == number_at::<S>(texts(ws@), i as int),
{
    if i < ws.len() {
        S::read(ws[i].as_slice())
    } else {
        None
    }
}

fn read_line<S: TextNumber>(line: &[char], no: usize) -> (r: Result<
    Option<TaskWaypoint<S>>,
    TaskError,
>)
    ensures
        r == line_waypoint::<S>(line@, no),
{
    let t: Vec<char> = trim(line);
    if t.len() == 0 || t[0] == '#' {
        return Ok(None);
    }
    let ws: Vec<Vec<char>> = split_words(t.as_slice());
    let x: S = match read_at(&ws, 0) {
        Some(x) => x,
        None => {
            return Err(TaskError::BadX(no));
        },
    };
    let y: S = match read_at(&ws, 1) {
        Some(y) => y,
        None => {
            return Err(TaskError::BadY(no));
        },
    };
    let yaw_deg: Option<S> = match read_at::<S>(&ws, 2) {
        Some(yaw) => if yaw.finite() {
            Some(yaw)
        } else {
            None
        },
        None => None,
    };
    let dwell: S = match read_at(&ws, 3) {
        Some(d) => d,
        None => S::ratio(0, 1),
    };
    Ok(Some(TaskWaypoint { x, y, yaw_deg, dwell_s: greater_of(dwell, S::ratio(0, 1)) }))
}

proof fn lemma_error_stays<S: TextNumber>(lines: Seq<Seq<char>>, k: nat, n: nat)
    requires
        k <= n,
        waypoints_in::<S>(lines, k) is Err,
    ensures
        waypoints_in::<S>(lines, n) == waypoints_in::<S>(lines, k),
    decreases n - k,
{
    if k < n {
        lemma_error_stays::<S>(lines, k, (n - 1) as nat);
    }
}

fn message(path: &str, e: TaskError) -> (r: String)
    ensures
        r@ == error_text(path@, e),
{
    let mut s: String = path.to_owned();
    match e {
        TaskError::BadX(no) => {
            s.append(":");
            push_decimal(&mut s, no as u64);
            s.append(": bad x");
        },
        TaskError::BadY(no) => {
            s.append(":");
            push_decimal(&mut s, no as u64);
            s.append(": bad y");
        },
        TaskError::Empty => {
            s.append(": no waypoints");
        },
    }
    s
}

/// The task that the text of the file `path` holds.
pub fn load_task<S: TextNumber>(path: &str, text: &str) -> (r: Result<Vec<TaskWaypoint<S>>, String>)
    ensures
        match task_in::<S>(text@) {
            Ok(task) => r matches Ok(v) && v@ == task,
            Err(e) => r matches Err(m) && m@ == error_text(path@, e),
        },
{
    let lines: Vec<Vec<char>> = split(chars_of(text).as_slice(), '\n');
    let n: usize = lines.len();
    let ghost all = texts(lines@);
    let mut out: Vec<TaskWaypoint<S>> = Vec::new();
    let mut k: usize = 0;
    while k < n
        invariant
            k <= n == lines@.len(),
            all == texts(lines@),
            all == pieces(text@, '\n'),
            waypoints_in::<S>(all, k as nat) == Ok::<Seq<TaskWaypoint<S>>, TaskError>(out@),
        decreases n - k,
    {
        assert(lines@[k as int]@ == all[k as int]);
        match read_line::<S>(lines[k].as_slice(), k + 1) {
            Err(e) => {
                proof {
                    lemma_error_stays::<S>(all, (k + 1) as nat, n as nat);
                }
                return Err(message(path, e));
            },
            Ok(None) => {},
            Ok(Some(wp)) => {
                out.push(wp);
            },
        }
        k = k + 1;
    }
    if out.len() == 0 {
        return Err(message(path, TaskError::Empty));
    }
    Ok(out)
}

/// No waypoint of a loaded task waits for less than no time, where the times
/// compare as numbers do.
pub proof fn law_loaded_waits<S: TextNumber>(line: Seq<char>, no: usize, wp: TaskWaypoint<S>)
    requires
        line_waypoint::<S>(line, no) == Ok::<Option<TaskWaypoint<S>>, TaskError>(Some(wp)),
    ensures
        !lt(wp.dwell_s, zero::<S>()),
        wp.yaw_deg matches Some(yaw) ==> yaw.is_finite(),
{
}

/// The metadata of a map: resolution and corner.
#[derive(Clone, Copy, Debug)]
pub struct MapMeta<S> {
    pub resolution: S,
    pub origin_x: S,
    pub origin_y: S,
}

/// The numbers among the pieces, in order, up to piece `k`.
pub open spec fn numbers_in<S: TextNumber>(ps: Seq<Seq<char>>, k: nat) -> Seq<S>
    decreases k,
{
    if k == 0 {
        Seq::empty()
    } else {
        match S::read_spec(trimmed(ps[k - 1])) {
            Some(v) => numbers_in::<S>(ps, (k - 1) as nat).push(v),
            None => numbers_in(ps, (k - 1) as nat),
        }
    }
}

/// The list inside square brackets.
pub open spec fn bracketed(s: Seq<char>) -> Seq<char> {
    back_cut(front_cut(trimmed(s), |c: char| c == '['), |c: char| c == ']')
}

/// The numbers of a list.
pub open spec fn list_numbers<S: TextNumber>(s: Seq<char>) -> Seq<S> {
    let ps = pieces(bracketed(s), ',');
    numbers_in(ps, ps.len())
}

/// The metadata with what a line says; `None` for a resolution that is no number.
pub open spec fn meta_with<S: TextNumber>(m: MapMeta<S>, line: Seq<char>) -> Option<MapMeta<S>> {
    let t = trimmed(line);
    match after_prefix(t, "resolution:"@) {
        Some(v) => match S::read_spec(trimmed(v)) {
            Some(resolution) => Some(MapMeta { resolution, ..m }),
            None => None,
        },
        None => match after_prefix(t, "origin:"@) {
            Some(v) => {
                let ns = list_numbers::<S>(v);
                Some(
                    MapMeta {
                        origin_x: if ns.len() > 0 {
                            ns[0]
                        } else {
                            zero()
                        },
                        origin_y: if ns.len() > 1 {
                            ns[1]
                        } else {
                            zero()
                        },
                        ..m
                    },
                )
            },
            None => Some(m),
        },
    }
}

/// The metadata that the first `k` lines give.
pub open spec fn meta_in<S: TextNumber>(lines: Seq<Seq<char>>, k: nat) -> Option<MapMeta<S>>
    decreases k,
{
    if k == 0 {
        Some(
            MapMeta { resolution: S::ratio_spec(1, 20), origin_x: zero(), origin_y: zero() },
        )
    } else {
        match meta_in::<S>(lines, (k - 1) as nat) {
            Some(m) => meta_with(m, lines[k - 1]),
            None => None,
        }
    }
}

fn read_numbers<S: TextNumber>(s: &[char]) -> (r: Vec<S>)
    ensures
        r@ == list_numbers::<S>(s@),
{
    let inner: Vec<char> = trim_back(trim_front(trim(s).as_slice(), '[').as_slice(), ']');
    let ps: Vec<Vec<char>> = split(inner.as_slice(), ',');
    let ghost all = texts(ps@);
    let mut out: Vec<S> = Vec::new();
    let mut k: usize = 0;
    assert(out@ =~= numbers_in::<S>(all, 0));
    while k < ps.len()
        invariant
            k <= ps@.len(),
            all == texts(ps@),
            out@ == numbers_in::<S>(all, k as nat),
        decreases ps@.len() - k,
    {
        assert(ps@[k as int]@ == all[k as int]);
        match S::read(trim(ps[k].as_slice()).as_slice()) {
            Some(v) => {
                out.push(v);
            },
            None => {},
        }
        k = k + 1;
    }
    out
}

fn read_meta_line<S: TextNumber>(m: MapMeta<S>, line: &[char]) -> (r: Option<MapMeta<S>>)
    ensures
        r == meta_with(m, line@),
{
    let t: Vec<char> = trim(line);
    match strip_prefix(t.as_slice(), "resolution:") {
        Some(v) => match S::read(trim(v.as_slice()).as_slice()) {
            Some(resolution) => Some(
                MapMeta { resolution, origin_x: m.origin_x, origin_y: m.origin_y },
            ),
            None => None,
        },
        None => match strip_prefix(t.as_slice(), "origin:") {
            Some(v) => {
                let ns: Vec<S> = read_numbers(v.as_slice());
                let o: S = S::ratio(0, 1);
                Some(
                    MapMeta {
                        resolution: m.resolution,
                        origin_x: if ns.len() > 0 {
                            ns[0]
                        } else {
                            o
                        },
                        origin_y: if ns.len() > 1 {
                            ns[1]
                        } else {
                            o
                        },
                    },
                )
            },
            None => Some(m),
        },
    }
}

proof fn lemma_no_meta_stays<S: TextNumber>(lines: Seq<Seq<char>>, k: nat, n: nat)
    requires
        k <= n,
        meta_in::<S>(lines, k) is None,
    ensures
        meta_in::<S>(lines, n) is None,
    decreases n - k,
{
    if k < n {
        lemma_no_meta_stays::<S>(lines, k, (n - 1) as nat);
    }
}

/// The metadata that a text holds.
pub fn parse_yaml<S: TextNumber>(text: &str) -> (r: Result<MapMeta<S>, String>)
    ensures
        ({
            let lines = pieces(text@, '\n');
            match meta_in::<S>(lines, lines.len()) {
                Some(m) => r matches Ok(v) && v == m,
                None => r matches Err(e) && e@ == "bad resolution"@,
            }
        }),
{
    let lines: Vec<Vec<char>> = split(chars_of(text).as_slice(), '\n');
    let n: usize = lines.len();
    let ghost all = texts(lines@);
    let o: S = S::ratio(0, 1);
    let mut m: MapMeta<S> = MapMeta { resolution: S::ratio(1, 20), origin_x: o, origin_y: o };
    let mut k: usize = 0;
    while k < n
        invariant
            k <= n == lines@.len(),
            all == texts(lines@),
            all == pieces(text@, '\n'),
            meta_in::<S>(all, k as nat) == Some(m),
        decreases n - k,
    {
        assert(lines@[k as int]@ == all[k as int]);
        match read_meta_line(m, lines[k].as_slice()) {
            Some(next) => {
                m = next;
            },
            None => {
                proof {
                    lemma_no_meta_stays::<S>(all, (k + 1) as nat, n as nat);
                }
                return Err("bad resolution".to_owned());
            },
        }
        k = k + 1;
    }
    Ok(m)
}

/// A text that stands for itself in metadata: not empty, without white space and
/// without the marks of a list.
pub open spec fn is_plain(s: Seq<char>) -> bool {
    s.len() > 0 && forall|i: int|
        0 <= i < s.len() ==> !is_space(#[trigger] s[i]) && s[i] != ',' && s[i] != '[' && s[i] != ']'
}

/// The number is written as a plain text that reads back.
pub open spec fn reads_back<S: TextNumber>(v: S) -> bool {
    is_plain(v.shown_spec()) && S::read_spec(v.shown_spec()) == Some(v)
}

/// A text between other characters than white space is not trimmed.
proof fn lemma_tight(s: Seq<char>)
    requires
        s.len() > 0,
        !is_space(s[0]),
        !is_space(s.last()),
    ensures
        trimmed(s) == s,
{
    let skip = |c: char| is_space(c);
    lemma_front_cut(s, skip, 0);
    assert(s.skip(0) =~= s);
    lemma_back_cut(s, skip, s.len() as int);
    assert(s.take(s.len() as int) =~= s);
}

/// A blank in front is trimmed.
proof fn lemma_blank_before(s: Seq<char>)
    requires
        s.len() > 0,
        !is_space(s[0]),
        !is_space(s.last()),
    ensures
        trimmed(seq![' '] + s) == s,
{
    let skip = |c: char| is_space(c);
    let t = seq![' '] + s;
    lemma_front_cut(t, skip, 1);
    assert(t.skip(1) =~= s);
    lemma_back_cut(s, skip, s.len() as int);
    assert(s.take(s.len() as int) =~= s);
}

/// What is left after cutting at the end starts as before.
proof fn lemma_cut_is_start(s: Seq<char>, skip: spec_fn(char) -> bool)
    ensures
        back_cut(s, skip).len() <= s.len(),
        back_cut(s, skip) == s.take(back_cut(s, skip).len() as int),
    decreases s.len(),
{
    if s.len() > 0 && skip(s.last()) {
        lemma_cut_is_start(s.drop_last(), skip);
        let k = back_cut(s, skip).len() as int;
        assert(s.drop_last().take(k) =~= s.take(k));
    } else {
        assert(s.take(s.len() as int) =~= s);
    }
}

/// A line that starts otherwise than with a key says nothing.
proof fn lemma_other_line<S: TextNumber>(m: MapMeta<S>, line: Seq<char>)
    requires
        line.len() == 0 || (line.len() > 1 && !is_space(line[0]) && line[0] != 'r' && !(line[0]
            == 'o' && line[1] == 'r')),
    ensures
        meta_with(m, line) == Some(m),
{
    reveal_strlit("resolution:");
    reveal_strlit("origin:");
    let skip = |c: char| is_space(c);
    lemma_front_cut(line, skip, 0);
    assert(line.skip(0) =~= line);
    lemma_cut_is_start(line, skip);
    let t = trimmed(line);
    if after_prefix(t, "resolution:"@) is Some {
        assert(t.take(11)[0] == 'r');
    }
    if after_prefix(t, "origin:"@) is Some {
        assert(t.take(7)[0] == 'o');
        assert(t.take(7)[1] == 'r');
    }
}

/// The line of the resolution.
proof fn lemma_resolution_line<S: TextNumber>(m: MapMeta<S>, v: S)
    requires
        reads_back(v),
    ensures
        meta_with(m, "resolution: "@ + v.shown_spec()) == Some(MapMeta { resolution: v, ..m }),
{
    reveal_strlit("resolution: ");
    reveal_strlit("resolution:");
    let t = v.shown_spec();
    let line = "resolution: "@ + t;
    assert(line.last() == t.last());
    lemma_tight(line);
    assert(line.take(11) =~= "resolution:"@);
    assert(line.skip(11) =~= seq![' '] + t);
    lemma_blank_before(t);
}

/// The line of the origin.
proof fn lemma_origin_line<S: TextNumber>(m: MapMeta<S>, x: S, y: S)
    requires
        reads_back(x),
        reads_back(y),
    ensures
        meta_with(m, "origin: ["@ + x.shown_spec() + ", "@ + y.shown_spec() + ", 0.0]"@) == Some(
            MapMeta { origin_x: x, origin_y: y, ..m },
        ),
{
    reveal_strlit("origin: [");
    reveal_strlit("origin:");
    reveal_strlit("resolution:");
    reveal_strlit(", ");
    reveal_strlit(", 0.0]");
    let a = x.shown_spec();
    let b = y.shown_spec();
    let blank = seq![' '];
    let tail: Seq<char> = seq![' ', '0', '.', '0'];
    let inner = a.push(',') + ((blank + b).push(',') + tail);
    let list = seq!['['] + inner.push(']');
    let line = "origin: ["@ + a + ", "@ + b + ", 0.0]"@;
    assert(line =~= "origin:"@ + (blank + list));
    assert(line.last() == ']');
    lemma_tight(line);
    assert(line.take(11)[0] != "resolution:"@[0]);
    assert(line.take(7) =~= "origin:"@);
    assert(line.skip(7) =~= blank + list);
    assert(list.last() == ']');
    lemma_blank_before(list);
    let opens = |c: char| c == '[';
    let closes = |c: char| c == ']';
    assert(list[1] == a[0]);
    lemma_front_cut(list, opens, 1);
    assert(list.skip(1) =~= inner.push(']'));
    assert(inner.push(']')[inner.len() - 1] == '0');
    lemma_back_cut(inner.push(']'), closes, inner.len() as int);
    assert(inner.push(']').take(inner.len() as int) =~= inner);
    assert(bracketed(blank + list) == inner);
    let rest = (blank + b).push(',') + tail;
    lemma_pieces_around(a, ',', rest);
    lemma_pieces_around(blank + b, ',', tail);
    lemma_one_piece(a, ',');
    assert(!(blank + b).contains(','));
    lemma_one_piece(blank + b, ',');
    assert(!tail.contains(','));
    lemma_one_piece(tail, ',');
    let ps = pieces(inner, ',');
    assert(ps =~= seq![a, blank + b, tail]);
    lemma_tight(a);
    lemma_blank_before(b);
    reveal_with_fuel(numbers_in, 4);
    let two = numbers_in::<S>(ps, 2);
    assert(two =~= seq![x, y]);
}

/// The metadata of a grid reads back, where the numbers in it do and the name of
/// the image is on one line.
pub proof fn law_yaml_reads_back<S: TextNumber>(p: GridMapParams<S>, image_file: Seq<char>)
    requires
        reads_back(p.resolution),
        reads_back(p.min_x),
        reads_back(p.min_y),
        !image_file.contains('\n'),
    ensures
        ({
            let lines = pieces(yaml_text(p, image_file), '\n');
            meta_in::<S>(lines, lines.len()) == Some(
                MapMeta { resolution: p.resolution, origin_x: p.min_x, origin_y: p.min_y },
            )
        }),
{
    reveal_strlit("image: ");
    reveal_strlit("\nresolution: ");
    reveal_strlit("resolution: ");
    reveal_strlit("\norigin: [");
    reveal_strlit("origin: [");
    reveal_strlit(", ");
    reveal_strlit(", 0.0]");
    reveal_strlit("occupied_thresh: 0.65");
    reveal_strlit("free_thresh: 0.25");
    reveal_strlit("negate: 0");
    reveal_strlit(", 0.0]\noccupied_thresh: 0.65\nfree_thresh: 0.25\nnegate: 0\n");
    let r = p.resolution.shown_spec();
    let x = p.min_x.shown_spec();
    let y = p.min_y.shown_spec();
    let l0 = "image: "@ + image_file;
    let l1 = "resolution: "@ + r;
    let l2 = "origin: ["@ + x + ", "@ + y + ", 0.0]"@;
    let l3 = "occupied_thresh: 0.65"@;
    let l4 = "free_thresh: 0.25"@;
    let l5 = "negate: 0"@;
    let none = Seq::<char>::empty();
    let t5 = l5.push('\n') + none;
    let t4 = l4.push('\n') + t5;
    let t3 = l3.push('\n') + t4;
    let t2 = l2.push('\n') + t3;
    let t1 = l1.push('\n') + t2;
    let t0 = l0.push('\n') + t1;
    assert(", 0.0]\noccupied_thresh: 0.65\nfree_thresh: 0.25\nnegate: 0\n"@ =~= ", 0.0]"@.push('\n')
        + t3);
    assert("\nresolution: "@ =~= seq!['\n'] + "resolution: "@);
    assert("\norigin: ["@ =~= seq!['\n'] + "origin: ["@);
    assert(yaml_text(p, image_file) =~= t0);
    assert(!l0.contains('\n')) by {
        assert forall|i: int| 0 <= i < l0.len() implies l0[i] != '\n' by {
            if i >= 7 {
                assert(l0[i] == image_file[i - 7]);
                assert(image_file.contains(l0[i]));
            }
        }
    }
    assert(is_space('\n'));
    assert(!l1.contains('\n'));
    assert(!l2.contains('\n')) by {
        let head = "origin: ["@ + x;
        assert(!head.contains('\n'));
        let mid = head + ", "@ + y;
        assert(!mid.contains('\n'));
    }
    lemma_pieces_around(l0, '\n', t1);
    lemma_pieces_around(l1, '\n', t2);
    lemma_pieces_around(l2, '\n', t3);
    lemma_pieces_around(l3, '\n', t4);
    lemma_pieces_around(l4, '\n', t5);
    lemma_pieces_around(l5, '\n', none);
    lemma_one_piece(l0, '\n');
    lemma_one_piece(l1, '\n');
    lemma_one_piece(l2, '\n');
    lemma_one_piece(l3, '\n');
    lemma_one_piece(l4, '\n');
    lemma_one_piece(l5, '\n');
    lemma_one_piece(none, '\n');
    let lines = pieces(t0, '\n');
    assert(lines =~= seq![l0, l1, l2, l3, l4, l5, none]);
    let m0 = MapMeta { resolution: S::ratio_spec(1, 20), origin_x: zero::<S>(), origin_y: zero::<S>() };
    let m1 = MapMeta { resolution: p.resolution, ..m0 };
    let m2 = MapMeta { origin_x: p.min_x, origin_y: p.min_y, ..m1 };
    lemma_other_line(m0, l0);
    lemma_resolution_line(m0, p.resolution);
    lemma_origin_line(m1, p.min_x, p.min_y);
    lemma_other_line(m2, l3);
    lemma_other_line(m2, l4);
    lemma_other_line(m2, l5);
    lemma_other_line(m2, none);
    assert(meta_in::<S>(lines, 0) == Some(m0));
    assert(meta_in::<S>(lines, 1) == Some(m0));
    assert(meta_in::<S>(lines, 2) == Some(m1));
    assert(meta_in::<S>(lines, 3) == Some(m2));
    assert(meta_in::<S>(lines, 4) == Some(m2));
    assert(meta_in::<S>(lines, 5) == Some(m2));
    assert(meta_in::<S>(lines, 6) == Some(m2));
    assert(meta_in::<S>(lines, 7) == Some(m2));
}

/// A line of numbers is a waypoint: the place first, then the heading if there is one, then
/// the time to wait, which is not negative.
pub proof fn law_line_of_numbers<S: TextNumber>(line: Seq<char>, no: usize)
    requires
        trimmed(line).len() > 0,
        trimmed(line)[0] != '#',
        words(trimmed(line)).len() >= 2,
        S::read_spec(words(trimmed(line))[0]) is Some,
        S::read_spec(words(trimmed(line))[1]) is Some,
    ensures
        ({
            let ws = words(trimmed(line));
            let wp = line_waypoint::<S>(line, no)->Ok_0->0;
            &&& line_waypoint::<S>(line, no) is Ok
            &&& line_waypoint::<S>(line, no)->Ok_0 is Some
            &&& S::read_spec(ws[0]) == Some(wp.x)
            &&& S::read_spec(ws[1]) == Some(wp.y)
            &&& ws.len() == 2 ==> wp.yaw_deg is None && wp.dwell_s == zero::<S>()
            &&& wp.yaw_deg is Some ==> S::read_spec(ws[2]) == wp.yaw_deg
            &&& ws.len() > 2 && S::read_spec(ws[2]) is Some && S::read_spec(ws[2])->0.is_finite()
                ==> wp.yaw_deg is Some
            &&& !lt(wp.dwell_s, zero::<S>())
            &&& ws.len() > 3 && S::read_spec(ws[3]) is Some && lt(
                zero::<S>(),
                S::read_spec(ws[3])->0,
            ) ==> S::read_spec(ws[3]) == Some(wp.dwell_s)
        }),
{
}

} // verus!
