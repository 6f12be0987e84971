use vstd::prelude::*;

verus! {

/// A point whose coordinates are already written out as decimal text.
#[derive(Debug, Clone)]
pub struct PointText {
    pub x: String,
    pub y: String,
}

/// The written-out control points of one quadratic segment.
#[derive(Debug, Clone)]
pub struct CurveText {
    pub start: PointText,
    pub control: PointText,
    pub end: PointText,
}

/// `x y` for one point.
pub open spec fn point_chars(p: PointText) -> Seq<char> {
    p.x@ + seq![' '] + p.y@
}

/// ` Q cx cy, ex ey`: the command that draws one segment from the current point.
pub open spec fn curve_command(c: CurveText) -> Seq<char> {
    seq![' ', 'Q', ' '] + point_chars(c.control) + seq![',', ' '] + point_chars(c.end)
}

/// The commands of all segments, in order.
pub open spec fn commands(curves: Seq<CurveText>) -> Seq<char>
    decreases curves.len(),
{
    if curves.len() == 0 {
        Seq::empty()
    } else {
        commands(curves.drop_last()) + curve_command(curves.last())
    }
}

/// `M x0 y0` followed by every segment's command; empty when there is no segment.
pub open spec fn svg_path_chars(curves: Seq<CurveText>) -> Seq<char> {
    if curves.len() == 0 {
        Seq::empty()
    } else {
        seq!['M', ' '] + point_chars(curves[0].start) + commands(curves)
    }
}

/// The SVG path data that draws `curves` one after the other from the start
/// of the first.
pub fn svg_path(curves: &Vec<CurveText>) -> (r: String)
    ensures
        r@ == svg_path_chars(curves@),
{
    let mut s = String::new();
    if curves.len() == 0 {
        return s;
    }
    proof {
        reveal_strlit("M ");
        reveal_strlit(" ");
        reveal_strlit(" Q ");
        reveal_strlit(", ");
    }
    s.append("M ");
    s.append(curves[0].start.x.as_str());
    s.append(" ");
    s.append(curves[0].start.y.as_str());
    let ghost head = s@;
    assert(head == seq!['M', ' '] + point_chars(curves@[0].start));
    assert(curves@.take(0) =~= Seq::<CurveText>::empty());
    let mut k: usize = 0;
    while k < curves.len()
        invariant
            k <= curves.len(),
            head == seq!['M', ' '] + point_chars(curves@[0].start),
            s@ == head + commands(curves@.take(k as int)),
        decreases curves.len() - k,
    {
        proof {
            reveal_strlit(" ");
            reveal_strlit(" Q ");
            reveal_strlit(", ");
        }
        let c = &curves[k];
        let ghost before = s@;
        s.append(" Q ");
        s.append(c.control.x.as_str());
        s.append(" ");
        s.append(c.control.y.as_str());
        s.append(", ");
        s.append(c.end.x.as_str());
        s.append(" ");
        s.append(c.end.y.as_str());
        proof {
            assert(s@ =~= before + curve_command(*c));
            assert(curves@.take(k + 1).drop_last() =~= curves@.take(k as int));
            assert(curves@.take(k + 1).last() == *c);
            assert(s@ =~= head + commands(curves@.take(k + 1)));
        }
        k = k + 1;
    }
    assert(curves@.take(curves.len() as int) =~= curves@);
    s
}

/// The segment marker ` Q ` starts at position `p` of `s`.
pub open spec fn marker_at(s: Seq<char>, p: int) -> bool {
    &&& 0 <= p
    &&& p + 3 <= s.len()
    &&& s[p] == ' '
    &&& s[p + 1] == 'Q'
    &&& s[p + 2] == ' '
}

/// How many segment markers start before position `u` of `s`.
pub open spec fn markers_before(s: Seq<char>, u: int) -> nat
    decreases u,
{
    if u <= 0 {
        0
    } else {
        markers_before(s, u - 1) + if marker_at(s, u - 1) {
            1nat
        } else {
            0nat
        }
    }
}

/// How many times ` Q ` occurs in `s`.
pub open spec fn marker_count(s: Seq<char>) -> nat {
    markers_before(s, s.len() as int)
}

/// `s` holds no `Q`, as decimal text never does.
pub open spec fn free_of_q(s: Seq<char>) -> bool {
    forall|i: int| 0 <= i < s.len() ==> s[i] != 'Q'
}

/// Every coordinate of every segment is written without a `Q`.
pub open spec fn texts_free_of_q(curves: Seq<CurveText>) -> bool {
    forall|k: int|
        #![trigger curves[k]]
        0 <= k < curves.len() ==> {
            &&& free_of_q(curves[k].start.x@)
            &&& free_of_q(curves[k].start.y@)
            &&& free_of_q(curves[k].control.x@)
            &&& free_of_q(curves[k].control.y@)
            &&& free_of_q(curves[k].end.x@)
            &&& free_of_q(curves[k].end.y@)
        }
}

} // verus!
