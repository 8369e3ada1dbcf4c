//! The map as a text file of points.
use crate::task_file::{is_plain, reads_back};
use crate::text::{
    chars_of, decimal, is_space, lemma_one_piece, lemma_pieces_around, pieces, push_decimal,
    same_text, TextNumber,
};
use crate::types::PointType;
use vstd::prelude::*;
use vstd::string::StringExecFns;

verus! {

/// Format of a map file.
#[derive(Clone, Copy, Debug, PartialEq, Eq, Structural)]
pub enum MapFormat {
    Xyz,
    Pcd,
    Ply,
}

impl MapFormat {
    /// The name of the format, which is also the extension of its files.
    pub open spec fn name(self) -> Seq<char> {
        match self {
            MapFormat::Xyz => "xyz"@,
            MapFormat::Pcd => "pcd"@,
            MapFormat::Ply => "ply"@,
        }
    }

    /// The format of a name.
    pub fn parse(s: &str) -> (r: Option<Self>)
        ensures
            r is Some <==> (s@ == "xyz"@ || s@ == "pcd"@ || s@ == "ply"@),
            r matches Some(f) ==> f.name() == s@,
    {
        let cs: Vec<char> = chars_of(s);
        if same_text(cs.as_slice(), "xyz") {
            Some(MapFormat::Xyz)
        } else if same_text(cs.as_slice(), "pcd") {
            Some(MapFormat::Pcd)
        } else if same_text(cs.as_slice(), "ply") {
            Some(MapFormat::Ply)
        } else {
            None
        }
    }

    /// The extension of files of the format.
    pub fn extension(self) -> (r: &'static str)
        ensures
            r@ == self.name(),
    {
        match self {
            MapFormat::Xyz => "xyz",
            MapFormat::Pcd => "pcd",
            MapFormat::Ply => "ply",
        }
    }
}

/// The formats have different names, so that a name reads back as its format.
pub proof fn law_format_names_differ(a: MapFormat, b: MapFormat)
    requires
        a.name() == b.name(),
    ensures
        a == b,
{
    reveal_strlit("xyz");
    reveal_strlit("pcd");
    reveal_strlit("ply");
    assert("xyz"@[0] == 'x' && "pcd"@[0] == 'p' && "ply"@[0] == 'p');
    assert("pcd"@[1] == 'c' && "ply"@[1] == 'l');
}

/// The head of a map file of `n` points.
pub open spec fn map_head(n: nat, fmt: MapFormat) -> Seq<char> {
    match fmt {
        MapFormat::Xyz => Seq::empty(),
        MapFormat::Pcd =>
        "# .PCD v0.7 - Point Cloud Data file format\nVERSION 0.7\nFIELDS x y z intensity\nSIZE 4 4 4 4\nTYPE F F F F\nCOUNT 1 1 1 1\nWIDTH "@
            + decimal(n) + "\nHEIGHT 1\nVIEWPOINT 0 0 0 1 0 0 0\nPOINTS "@ + decimal(n)
            + "\nDATA ascii\n"@,
        MapFormat::Ply => "ply\nformat ascii 1.0\nelement vertex "@ + decimal(n)
            + "\nproperty float x\nproperty float y\nproperty float z\nproperty float intensity\nend_header\n"@,
    }
}

/// The line of a point: its position and, but for the plainest format, its
/// intensity.
pub open spec fn map_line<N: TextNumber>(p: PointType<N>, fmt: MapFormat) -> Seq<char> {
    let at = p.x.shown_spec() + " "@ + p.y.shown_spec() + " "@ + p.z.shown_spec();
    if fmt == MapFormat::Xyz {
        at + "\n"@
    } else {
        at + " "@ + p.intensity.shown_spec() + "\n"@
    }
}

/// The lines of the first `n` points.
pub open spec fn map_lines<N: TextNumber>(points: Seq<PointType<N>>, fmt: MapFormat, n: nat) -> Seq<
    char,
>
    decreases n,
{
    if n == 0 {
        Seq::empty()
    } else {
        map_lines(points, fmt, (n - 1) as nat) + map_line(points[n - 1], fmt)
    }
}

/// The text of a map file.
pub fn write_map<N: TextNumber>(points: &[PointType<N>], fmt: MapFormat) -> (r: String)
    ensures
        r@ == map_head(points@.len(), fmt) + map_lines(points@, fmt, points@.len()),
{
    let n: usize = points.len();
    let mut s: String = String::new();
    match fmt {
        MapFormat::Xyz => {},
        MapFormat::Pcd => {
            s.append(
                "# .PCD v0.7 - Point Cloud Data file format\nVERSION 0.7\nFIELDS x y z intensity\nSIZE 4 4 4 4\nTYPE F F F F\nCOUNT 1 1 1 1\nWIDTH ",
            );
            push_decimal(&mut s, n as u64);
            s.append("\nHEIGHT 1\nVIEWPOINT 0 0 0 1 0 0 0\nPOINTS ");
            push_decimal(&mut s, n as u64);
            s.append("\nDATA ascii\n");
        },
        MapFormat::Ply => {
            s.append("ply\nformat ascii 1.0\nelement vertex ");
            push_decimal(&mut s, n as u64);
            s.append(
                "\nproperty float x\nproperty float y\nproperty float z\nproperty float intensity\nend_header\n",
            );
        },
    }
    let ghost head = map_head(n as nat, fmt);
    assert(s@ =~= head);
    let mut i: usize = 0;
    assert(s@ =~= head + map_lines(points@, fmt, 0));
    while i < n
        invariant
            i <= n == points@.len(),
            s@ == head + map_lines(points@, fmt, i as nat),
        decreases n - i,
    {
        let p: PointType<N> = points[i];
        p.x.show(&mut s);
        s.append(" ");
        p.y.show(&mut s);
        s.append(" ");
        p.z.show(&mut s);
        if fmt != MapFormat::Xyz {
            s.append(" ");
            p.intensity.show(&mut s);
        }
        s.append("\n");
        i = i + 1;
        assert(s@ =~= head + map_lines(points@, fmt, i as nat));
    }
    s
}

/// Plain texts between spaces are their own pieces.
proof fn lemma_spaced(a: Seq<char>, b: Seq<char>)
    requires
        is_plain(b),
    ensures
        pieces(a + " "@ + b, ' ') == pieces(a, ' ').push(b),
{
    reveal_strlit(" ");
    assert(a + " "@ =~= a.push(' '));
    lemma_pieces_around(a, ' ', b);
    lemma_no_space(b);
    lemma_one_piece(b, ' ');
    assert(pieces(a, ' ') + seq![b] =~= pieces(a, ' ').push(b));
}

proof fn lemma_no_space(b: Seq<char>)
    requires
        is_plain(b),
    ensures
        !b.contains(' '),
        !b.contains('\n'),
{
    if b.contains(' ') {
        let i = choose|i: int| 0 <= i < b.len() && b[i] == ' ';
        assert(!is_space(b[i]));
    }
    if b.contains('\n') {
        let i = choose|i: int| 0 <= i < b.len() && b[i] == '\n';
        assert(!is_space(b[i]));
    }
}

/// What is written of a point reads back: the pieces of its line are its coordinates and,
/// but for the plainest format, its intensity, and the line has one end.
pub proof fn law_point_reads_back<N: TextNumber>(p: PointType<N>, fmt: MapFormat)
    requires
        reads_back(p.x),
        reads_back(p.y),
        reads_back(p.z),
        reads_back(p.intensity),
    ensures
        ({
            let line = map_line(p, fmt);
            let ps = pieces(line.drop_last(), ' ');
            &&& line.len() > 0
            &&& line.last() == '\n'
            &&& !line.drop_last().contains('\n')
            &&& ps.len() == if fmt == MapFormat::Xyz {
                3int
            } else {
                4
            }
            &&& N::read_spec(ps[0]) == Some(p.x)
            &&& N::read_spec(ps[1]) == Some(p.y)
            &&& N::read_spec(ps[2]) == Some(p.z)
            &&& fmt != MapFormat::Xyz ==> N::read_spec(ps[3]) == Some(p.intensity)
        }),
{
    let (x, y, z, e) = (
        p.x.shown_spec(),
        p.y.shown_spec(),
        p.z.shown_spec(),
        p.intensity.shown_spec(),
    );
    reveal_strlit(" ");
    reveal_strlit("\n");
    lemma_no_space(x);
    lemma_no_space(y);
    lemma_no_space(z);
    lemma_no_space(e);
    lemma_one_piece(x, ' ');
    let two = x + " "@ + y;
    let at = two + " "@ + z;
    lemma_spaced(x, y);
    lemma_spaced(two, z);
    let all = at + " "@ + e;
    lemma_spaced(at, e);
    let line = map_line(p, fmt);
    let body = if fmt == MapFormat::Xyz {
        at
    } else {
        all
    };
    assert(line =~= body + "\n"@);
    assert(line.drop_last() =~= body);
    assert(!all.contains('\n')) by {
        if all.contains('\n') {
            let i = choose|i: int| 0 <= i < all.len() && all[i] == '\n';
            let (a, b, c) = (x.len() as int, y.len() as int, z.len() as int);
            if i < a {
                assert(x[i] == '\n');
            } else if a < i < a + 1 + b {
                assert(y[i - a - 1] == '\n');
            } else if a + 1 + b < i < a + b + c + 2 {
                assert(z[i - a - b - 2] == '\n');
            } else if i > a + b + c + 2 {
                assert(e[i - a - b - c - 3] == '\n');
            }
        }
    }
    assert(!at.contains('\n')) by {
        if at.contains('\n') {
            let i = choose|i: int| 0 <= i < at.len() && at[i] == '\n';
            assert(all[i] == '\n');
        }
    }
}

/// A map file has a line for each point, in order.
pub proof fn law_line_for_each_point<N: TextNumber>(
    points: Seq<PointType<N>>,
    fmt: MapFormat,
    n: nat,
)
    requires
        n <= points.len(),
        forall|i: int|
            0 <= i < points.len() ==> {
                let p = #[trigger] points[i];
                reads_back(p.x) && reads_back(p.y) && reads_back(p.z) && reads_back(p.intensity)
            },
    ensures
        ({
            let ls = pieces(map_lines(points, fmt, n), '\n');
            &&& ls.len() == n + 1
            &&& ls[n as int] == Seq::<char>::empty()
            &&& forall|i: int|
                0 <= i < n ==> #[trigger] ls[i] == map_line(points[i], fmt).drop_last()
        }),
    decreases n,
{
    if n > 0 {
        law_line_for_each_point(points, fmt, (n - 1) as nat);
        let p = points[n - 1];
        law_point_reads_back(p, fmt);
        let before = map_lines(points, fmt, (n - 1) as nat);
        let line = map_line(p, fmt);
        let body = line.drop_last();
        let all = before + body;
        assert(map_lines(points, fmt, n) =~= all.push('\n'));
        assert(all.push('\n').drop_last() =~= all);
        lemma_last_piece(before, body);
    }
}

/// A text without an end of line behind one that ends with it is the last piece.
proof fn lemma_last_piece(a: Seq<char>, b: Seq<char>)
    requires
        !b.contains('\n'),
        pieces(a, '\n').last() == Seq::<char>::empty(),
    ensures
        pieces(a + b, '\n') == pieces(a, '\n').drop_last().push(b),
    decreases b.len(),
{
    if b.len() == 0 {
        assert(a + b =~= a);
        lemma_pieces_around(Seq::empty(), '\n', a);
        assert(b =~= Seq::empty());
        assert(pieces(a, '\n').drop_last().push(b) =~= pieces(a, '\n'));
    } else {
        let t = b.drop_last();
        assert(b.contains(b.last()));
        assert forall|d: char| t.contains(d) implies b.contains(d) by {
            let i = choose|i: int| 0 <= i < t.len() && t[i] == d;
            assert(b[i] == d);
        }
        lemma_last_piece(a, t);
        assert((a + b).drop_last() =~= a + t);
        assert(t.push(b.last()) =~= b);
        let before = pieces(a + t, '\n');
        assert(before.drop_last() =~= pieces(a, '\n').drop_last());
    }
}

} // verus!
