use vstd::prelude::*;

use vstd::string::StringSliceAdditionalSpecFns;

verus! {

/// The separator of path components, `/`.
pub const SEPARATOR: u8 = 0x2F;

/// The byte of `.`.
pub const DOT: u8 = 0x2E;

/// A component of a path.
#[derive(Debug, Clone, PartialEq, Eq)]
pub enum Component {
    /// The root directory, at the start of an absolute path.
    RootDir,
    /// `.`, the current directory.
    CurDir,
    /// `..`, the parent directory.
    ParentDir,
    /// A name, as bytes.
    Normal(Vec<u8>),
}

/// A component of a path, as a mathematical value.
pub ghost enum Comp {
    Root,
    Cur,
    Parent,
    Normal(Seq<u8>),
}

impl Component {
    pub open spec fn view(&self) -> Comp {
        match self {
            Component::RootDir => Comp::Root,
            Component::CurDir => Comp::Cur,
            Component::ParentDir => Comp::Parent,
            Component::Normal(v) => Comp::Normal(v@),
        }
    }
}

/// The component that segment `s` between separators stands for: none for
/// an empty segment or `.`, `ParentDir` for `..`, else a name.
pub open spec fn segment_comps(s: Seq<u8>) -> Seq<Comp> {
    if s.len() == 0 || s == seq![DOT] {
        Seq::empty()
    } else if s == seq![DOT, DOT] {
        seq![Comp::Parent]
    } else {
        seq![Comp::Normal(s)]
    }
}

/// The components of `b` from byte `i` on, `cur` holding the bytes of the
/// segment begun before `i`.
pub open spec fn comps_from(b: Seq<u8>, i: nat, cur: Seq<u8>) -> Seq<Comp>
    decreases b.len() - i,
{
    if i >= b.len() {
        segment_comps(cur)
    } else if b[i as int] == SEPARATOR {
        segment_comps(cur) + comps_from(b, i + 1, Seq::empty())
    } else {
        comps_from(b, i + 1, cur.push(b[i as int]))
    }
}

/// A path is absolute when it starts with `/`.
pub open spec fn is_absolute(b: Seq<u8>) -> bool {
    b.len() > 0 && b[0] == SEPARATOR
}

/// The components of absolute path `b`: the root, then one component for
/// each segment between separators, empty segments and `.` left out.
pub open spec fn path_comps(b: Seq<u8>) -> Seq<Comp> {
    seq![Comp::Root] + comps_from(b, 1, Seq::empty())
}

/// The view of each component of `v`.
pub open spec fn comps_view(v: Seq<Component>) -> Seq<Comp> {
    Seq::new(v.len(), |i: int| v[i].view())
}

fn push_segment(out: &mut Vec<Component>, seg: Vec<u8>)
    ensures
        comps_view(final(out)@) == comps_view(old(out)@) + segment_comps(seg@),
{
    let ghost s = seg@;
    let ghost o = comps_view(out@);
    if seg.len() == 0 || (seg.len() == 1 && seg[0] == DOT) {
        proof {
            if seg@.len() == 1 {
                assert(seg@ =~= seq![DOT]);
            }
            assert(comps_view(out@) =~= o + segment_comps(s));
        }
        return;
    }
    if seg.len() == 2 && seg[0] == DOT && seg[1] == DOT {
        proof {
            assert(seg@ =~= seq![DOT, DOT]);
        }
        out.push(Component::ParentDir);
        proof {
            assert(comps_view(out@) =~= o + segment_comps(s));
        }
        return;
    }
    proof {
        assert(s != seq![DOT]);
        assert(s != seq![DOT, DOT]);
    }
    out.push(Component::Normal(seg));
    proof {
        assert(comps_view(out@) =~= o + segment_comps(s));
    }
}

/// Splits absolute path `path` into its components.
pub fn components(path: &str) -> (r: Vec<Component>)
    requires
        is_absolute(path.spec_bytes()),
    ensures
        comps_view(r@) == path_comps(path.spec_bytes()),
{
    let b = path.as_bytes();
    let ghost bs = b@;
    let mut out: Vec<Component> = Vec::new();
    out.push(Component::RootDir);
    let mut cur: Vec<u8> = Vec::new();
    let mut i: usize = 1;
    proof {
        assert(comps_view(out@) =~= seq![Comp::Root]);
    }
    while i < b.len()
        invariant
            b@ == bs,
            1 <= i <= bs.len(),
            comps_view(out@) + comps_from(bs, i as nat, cur@) == path_comps(bs),
        decreases bs.len() - i,
    {
        if b[i] == SEPARATOR {
            let seg = cur;
            cur = Vec::new();
            push_segment(&mut out, seg);
            proof {
                assert(comps_view(out@) + comps_from(bs, (i + 1) as nat, cur@) =~= path_comps(bs));
            }
        } else {
            cur.push(b[i]);
        }
        i += 1;
    }
    push_segment(&mut out, cur);
    proof {
        assert(comps_view(out@) =~= path_comps(bs));
    }
    out
}

} // verus!
