//! The dependency grammar: a single token `name[op version]` and a full
//! field of `|`-separated alternatives, with rendering back into
//! control-file syntax (`name (op version)` joined by `" | "`).

use vstd::prelude::*;

use crate::text::find_first;
use crate::text::find_sub;
use crate::text::lemma_find_from_some;
use crate::text::split_char;
use crate::text::split_str;

verus! {

/// One alternative of a dependency field: a package name with an optional
/// comparison operator and version.  Operator and version are both present
/// or both absent.
pub struct SplitPackage {
    pub pkgname: String,
    pub operator: Option<String>,
    pub version: Option<String>,
}

/// A dependency field: the ordered `|`-separated alternatives.
pub struct SplitDependency {
    pub deps: Vec<SplitPackage>,
}

/// Split `t` at the first occurrence of `op`: name before, version after.
pub open spec fn split_with(t: Seq<char>, op: Seq<char>) -> (Seq<char>, Option<Seq<char>>, Option<
    Seq<char>,
>) {
    let i = find_sub(t, op)->0;
    (t.subrange(0, i), Some(op), Some(t.subrange(i + op.len(), t.len() as int)))
}

/// How a dependency token splits into name, operator and version.  The
/// operators are tried longest first (`>=`, `<=`, `=`, `>`, `<`) so that the
/// `=` of a two-character operator is never taken alone; the version is
/// everything after the first occurrence of the chosen operator and may
/// itself contain `=`.  A token with no operator is all name.
pub open spec fn pkg_split(t: Seq<char>) -> (Seq<char>, Option<Seq<char>>, Option<Seq<char>>) {
    if find_sub(t, ">="@) is Some {
        split_with(t, ">="@)
    } else if find_sub(t, "<="@) is Some {
        split_with(t, "<="@)
    } else if find_sub(t, "="@) is Some {
        split_with(t, "="@)
    } else if find_sub(t, ">"@) is Some {
        split_with(t, ">"@)
    } else if find_sub(t, "<"@) is Some {
        split_with(t, "<"@)
    } else {
        (t, None, None)
    }
}

/// `p` holds exactly the split of token `t`.
pub open spec fn pkg_matches(p: SplitPackage, t: Seq<char>) -> bool {
    &&& p.pkgname@ == pkg_split(t).0
    &&& p.operator.deep_view() == pkg_split(t).1
    &&& p.version.deep_view() == pkg_split(t).2
}

impl SplitPackage {
    /// Parse one dependency token.  Total: every input yields a result.
    pub fn new(pkg_string: &str) -> (r: SplitPackage)
        ensures
            pkg_matches(r, pkg_string@),
    {
        proof {
            reveal_strlit(">=");
            reveal_strlit("<=");
            reveal_strlit("=");
            reveal_strlit(">");
            reveal_strlit("<");
        }
        if let Some(i) = find_first(pkg_string, ">=") {
            Self::split_at(pkg_string, i, ">=")
        } else if let Some(i) = find_first(pkg_string, "<=") {
            Self::split_at(pkg_string, i, "<=")
        } else if let Some(i) = find_first(pkg_string, "=") {
            Self::split_at(pkg_string, i, "=")
        } else if let Some(i) = find_first(pkg_string, ">") {
            Self::split_at(pkg_string, i, ">")
        } else if let Some(i) = find_first(pkg_string, "<") {
            Self::split_at(pkg_string, i, "<")
        } else {
            SplitPackage { pkgname: String::from_str(pkg_string), operator: None, version: None }
        }
    }

    /// Split `t` at position `i`, where `op` is known to make its first
    /// occurrence in `t`.
    fn split_at(t: &str, i: usize, op: &str) -> (r: SplitPackage)
        requires
            find_sub(t@, op@) == Some(i as int),
        ensures
            r.pkgname@ == t@.subrange(0, i as int),
            r.operator.deep_view() == Some(op@),
            r.version.deep_view() == Some(t@.subrange(i + op@.len(), t@.len() as int)),
    {
        proof {
            lemma_find_from_some(t@, op@, 0, i as int);
        }
        let t_len = t.unicode_len();
        let op_len = op.unicode_len();
        SplitPackage {
            pkgname: String::from_str(t.substring_char(0, i)),
            operator: Some(String::from_str(op)),
            version: Some(String::from_str(t.substring_char(i + op_len, t_len))),
        }
    }
}

/// The control-file rendering of one alternative: `name (op version)` when
/// operator and version are both present, the bare name otherwise.
pub open spec fn pkg_control(p: SplitPackage) -> Seq<char> {
    if p.operator is Some && p.version is Some {
        p.pkgname@ + " ("@ + p.operator->0@ + " "@ + p.version->0@ + ")"@
    } else {
        p.pkgname@
    }
}

/// The rendering of the alternatives from position `i` on, each preceded by
/// the `" | "` separator.
pub open spec fn control_from(deps: Seq<SplitPackage>, i: int) -> Seq<char>
    decreases deps.len() - i,
{
    if i < 0 || i >= deps.len() {
        Seq::empty()
    } else {
        " | "@ + pkg_control(deps[i]) + control_from(deps, i + 1)
    }
}

/// The control-file rendering of a whole field: the alternatives joined by
/// `" | "`.
pub open spec fn control_join(deps: Seq<SplitPackage>) -> Seq<char> {
    if deps.len() == 0 {
        Seq::empty()
    } else {
        pkg_control(deps[0]) + control_from(deps, 1)
    }
}

/// Append the control rendering of `p` to `out`.
fn append_pkg_control(out: &mut String, p: &SplitPackage)
    ensures
        final(out)@ == old(out)@ + pkg_control(*p),
{
    out.append(p.pkgname.as_str());
    if p.operator.is_some() && p.version.is_some() {
        let op = p.operator.as_ref().unwrap();
        let ver = p.version.as_ref().unwrap();
        out.append(" (");
        out.append(op.as_str());
        out.append(" ");
        out.append(ver.as_str());
        out.append(")");
        proof {
            assert(final(out)@ =~= old(out)@ + pkg_control(*p));
        }
    }
}

impl SplitDependency {
    /// Parse a dependency field: split on `|` and parse each alternative.
    /// Total, and the list of alternatives is never empty.
    pub fn new(dep_string: &str) -> (r: SplitDependency)
        ensures
            r.deps@.len() == split_char(dep_string@, '|').len(),
            r.deps@.len() >= 1,
            forall|k: int|
                0 <= k < r.deps@.len() ==> pkg_matches(
                    #[trigger] r.deps@[k],
                    split_char(dep_string@, '|')[k],
                ),
    {
        let parts = split_str(dep_string, '|');
        let n = parts.len();
        let mut deps: Vec<SplitPackage> = Vec::new();
        proof {
            crate::text::lemma_split_char_len(dep_string@, '|');
        }
        for idx in 0..n
            invariant
                n == parts@.len(),
                parts@.len() == split_char(dep_string@, '|').len(),
                forall|k: int|
                    0 <= k < parts@.len() ==> parts@[k]@ == split_char(dep_string@, '|')[k],
                deps@.len() == idx,
                forall|k: int|
                    0 <= k < idx ==> pkg_matches(
                        #[trigger] deps@[k],
                        split_char(dep_string@, '|')[k],
                    ),
        {
            let p = SplitPackage::new(parts[idx].as_str());
            deps.push(p);
        }
        SplitDependency { deps }
    }

    /// Render the alternatives in control-file syntax.
    pub fn as_control(&self) -> (r: String)
        ensures
            r@ == control_join(self.deps@),
    {
        let n = self.deps.len();
        let mut out = String::new();
        if n == 0 {
            return out;
        }
        append_pkg_control(&mut out, &self.deps[0]);
        proof {
            assert(out@ =~= pkg_control(self.deps@[0]));
        }
        for i in 1..n
            invariant
                n == self.deps@.len(),
                1 <= i <= n,
                out@ + control_from(self.deps@, i as int) == control_join(self.deps@),
        {
            let ghost before = out@;
            out.append(" | ");
            append_pkg_control(&mut out, &self.deps[i]);
            proof {
                assert(out@ =~= before + (" | "@ + pkg_control(self.deps@[i as int])));
                assert(before + control_from(self.deps@, i as int) =~= before + (" | "@
                    + pkg_control(self.deps@[i as int]) + control_from(self.deps@, i + 1)));
                assert(before + (" | "@ + pkg_control(self.deps@[i as int]) + control_from(
                    self.deps@,
                    i + 1,
                )) =~= out@ + control_from(self.deps@, i + 1));
            }
        }
        proof {
            assert(out@ + control_from(self.deps@, n as int) =~= out@);
        }
        out
    }
}

} // verus!
