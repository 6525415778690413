//! Classification of `.SRCINFO` keys: which keys hold a single string, which
//! hold arrays, which are required, and which may carry a distribution or
//! architecture qualifier (`focal_depends`, `depends_amd64`,
//! `focal_depends_amd64`).

use vstd::prelude::*;

use crate::text::occurs_at;
use crate::text::occurs_check;
use crate::text::str_eq;

verus! {

/// The keys that hold at most one value.
pub open spec fn string_keys() -> Seq<Seq<char>> {
    seq![
        "pkgbase"@,
        "pkgdesc"@,
        "pkgver"@,
        "pkgrel"@,
        "epoch"@,
        "url"@,
        "preinst"@,
        "postinst"@,
        "prerm"@,
        "postrm"@,
    ]
}

/// The keys that may hold any number of values.
pub open spec fn array_keys() -> Seq<Seq<char>> {
    seq![
        "pkgname"@,
        "arch"@,
        "license"@,
        "depends"@,
        "makedepends"@,
        "checkdepends"@,
        "optdepends"@,
        "conflicts"@,
        "provides"@,
        "replaces"@,
        "source"@,
        "control_fields"@,
        "md5sums"@,
        "sha1sums"@,
        "sha224sums"@,
        "sha256sums"@,
        "sha384sums"@,
        "sha512sums"@,
        "b2sums"@,
    ]
}

/// The keys that may appear with a qualifier affixed.
pub open spec fn extendable_keys() -> Seq<Seq<char>> {
    seq![
        "preinst"@,
        "postinst"@,
        "prerm"@,
        "postrm"@,
        "depends"@,
        "makedepends"@,
        "checkdepends"@,
        "optdepends"@,
        "conflicts"@,
        "provides"@,
        "replaces"@,
        "source"@,
        "control_fields"@,
        "md5sums"@,
        "sha1sums"@,
        "sha224sums"@,
        "sha256sums"@,
        "sha384sums"@,
        "sha512sums"@,
        "b2sums"@,
    ]
}

/// The keys that every valid document must contain.
pub open spec fn required_keys() -> Seq<Seq<char>> {
    seq!["pkgbase"@, "pkgname"@, "pkgver"@, "pkgrel"@, "arch"@]
}

pub open spec fn string_key(k: Seq<char>) -> bool {
    string_keys().contains(k)
}

pub open spec fn array_key(k: Seq<char>) -> bool {
    array_keys().contains(k)
}

pub open spec fn extendable_key(k: Seq<char>) -> bool {
    extendable_keys().contains(k)
}

pub open spec fn required_key(k: Seq<char>) -> bool {
    required_keys().contains(k)
}

/// `name` is `base` followed by an underscore and a (possibly empty)
/// qualifier.
pub open spec fn prefix_extension(name: Seq<char>, base: Seq<char>) -> bool {
    &&& name.len() > base.len()
    &&& occurs_at(name, base, 0)
    &&& name[base.len() as int] == '_'
}

/// `name` is a (possibly empty) qualifier, an underscore, then `base`.
pub open spec fn suffix_extension(name: Seq<char>, base: Seq<char>) -> bool {
    &&& name.len() > base.len()
    &&& occurs_at(name, base, name.len() - base.len())
    &&& name[name.len() - base.len() - 1] == '_'
}

/// `base` stands at position `i` of `name` with an underscore on either side.
pub open spec fn infix_at(name: Seq<char>, base: Seq<char>, i: int) -> bool {
    &&& 1 <= i
    &&& i + base.len() < name.len()
    &&& name[i - 1] == '_'
    &&& occurs_at(name, base, i)
    &&& name[i + base.len()] == '_'
}

pub open spec fn infix_extension(name: Seq<char>, base: Seq<char>) -> bool {
    exists|i: int| infix_at(name, base, i)
}

/// `name` is `base` carrying a qualifier in one of the three extension
/// shapes: `base_q`, `q_base`, or `q_base_q`.
pub open spec fn extension_of(name: Seq<char>, base: Seq<char>) -> bool {
    ||| prefix_extension(name, base)
    ||| suffix_extension(name, base)
    ||| infix_extension(name, base)
}

/// `name` is `key` itself or one of its three extension shapes.
pub open spec fn ext_match(name: Seq<char>, key: Seq<char>) -> bool {
    ||| name == key
    ||| extension_of(name, key)
}

/// The first extendable key, from table position `i` on, of which `name` is
/// an extension.
pub open spec fn affix_base_from(name: Seq<char>, i: int) -> Option<Seq<char>>
    decreases extendable_keys().len() - i,
{
    if i < 0 || i >= extendable_keys().len() {
        None
    } else if extension_of(name, extendable_keys()[i]) {
        Some(extendable_keys()[i])
    } else {
        affix_base_from(name, i + 1)
    }
}

/// The base key that `name` resolves to: `name` itself when it is a known
/// string or array key, else the first extendable key of which `name` is an
/// extension.
pub open spec fn base_key_of(name: Seq<char>) -> Option<Seq<char>> {
    if string_key(name) || array_key(name) {
        Some(name)
    } else {
        affix_base_from(name, 0)
    }
}

pub(crate) fn string_key_table() -> (t: Vec<&'static str>)
    ensures
        t@.len() == string_keys().len(),
        forall|i: int| 0 <= i < t@.len() ==> #[trigger] t@[i]@ == string_keys()[i],
{
    let t: Vec<&'static str> = vec![
        "pkgbase",
        "pkgdesc",
        "pkgver",
        "pkgrel",
        "epoch",
        "url",
        "preinst",
        "postinst",
        "prerm",
        "postrm",
    ];
    proof {
        assert(forall|i: int| 0 <= i < t@.len() ==> #[trigger] t@[i]@ == string_keys()[i]) by {
            assert(t@[0]@ == string_keys()[0]);
            assert(t@[1]@ == string_keys()[1]);
            assert(t@[2]@ == string_keys()[2]);
            assert(t@[3]@ == string_keys()[3]);
            assert(t@[4]@ == string_keys()[4]);
            assert(t@[5]@ == string_keys()[5]);
            assert(t@[6]@ == string_keys()[6]);
            assert(t@[7]@ == string_keys()[7]);
            assert(t@[8]@ == string_keys()[8]);
            assert(t@[9]@ == string_keys()[9]);
        }
    }
    t
}

pub(crate) fn array_key_table() -> (t: Vec<&'static str>)
    ensures
        t@.len() == array_keys().len(),
        forall|i: int| 0 <= i < t@.len() ==> #[trigger] t@[i]@ == array_keys()[i],
{
    let t: Vec<&'static str> = vec![
        "pkgname",
        "arch",
        "license",
        "depends",
        "makedepends",
        "checkdepends",
        "optdepends",
        "conflicts",
        "provides",
        "replaces",
        "source",
        "control_fields",
        "md5sums",
        "sha1sums",
        "sha224sums",
        "sha256sums",
        "sha384sums",
        "sha512sums",
        "b2sums",
    ];
    proof {
        assert(forall|i: int| 0 <= i < t@.len() ==> #[trigger] t@[i]@ == array_keys()[i]) by {
            assert(t@[0]@ == array_keys()[0]);
            assert(t@[1]@ == array_keys()[1]);
            assert(t@[2]@ == array_keys()[2]);
            assert(t@[3]@ == array_keys()[3]);
            assert(t@[4]@ == array_keys()[4]);
            assert(t@[5]@ == array_keys()[5]);
            assert(t@[6]@ == array_keys()[6]);
            assert(t@[7]@ == array_keys()[7]);
            assert(t@[8]@ == array_keys()[8]);
            assert(t@[9]@ == array_keys()[9]);
            assert(t@[10]@ == array_keys()[10]);
            assert(t@[11]@ == array_keys()[11]);
            assert(t@[12]@ == array_keys()[12]);
            assert(t@[13]@ == array_keys()[13]);
            assert(t@[14]@ == array_keys()[14]);
            assert(t@[15]@ == array_keys()[15]);
            assert(t@[16]@ == array_keys()[16]);
            assert(t@[17]@ == array_keys()[17]);
            assert(t@[18]@ == array_keys()[18]);
        }
    }
    t
}

pub(crate) fn extendable_key_table() -> (t: Vec<&'static str>)
    ensures
        t@.len() == extendable_keys().len(),
        forall|i: int| 0 <= i < t@.len() ==> #[trigger] t@[i]@ == extendable_keys()[i],
{
    let t: Vec<&'static str> = vec![
        "preinst",
        "postinst",
        "prerm",
        "postrm",
        "depends",
        "makedepends",
        "checkdepends",
        "optdepends",
        "conflicts",
        "provides",
        "replaces",
        "source",
        "control_fields",
        "md5sums",
        "sha1sums",
        "sha224sums",
        "sha256sums",
        "sha384sums",
        "sha512sums",
        "b2sums",
    ];
    proof {
        assert(forall|i: int| 0 <= i < t@.len() ==> #[trigger] t@[i]@ == extendable_keys()[i]) by {
            assert(t@[0]@ == extendable_keys()[0]);
            assert(t@[1]@ == extendable_keys()[1]);
            assert(t@[2]@ == extendable_keys()[2]);
            assert(t@[3]@ == extendable_keys()[3]);
            assert(t@[4]@ == extendable_keys()[4]);
            assert(t@[5]@ == extendable_keys()[5]);
            assert(t@[6]@ == extendable_keys()[6]);
            assert(t@[7]@ == extendable_keys()[7]);
            assert(t@[8]@ == extendable_keys()[8]);
            assert(t@[9]@ == extendable_keys()[9]);
            assert(t@[10]@ == extendable_keys()[10]);
            assert(t@[11]@ == extendable_keys()[11]);
            assert(t@[12]@ == extendable_keys()[12]);
            assert(t@[13]@ == extendable_keys()[13]);
            assert(t@[14]@ == extendable_keys()[14]);
            assert(t@[15]@ == extendable_keys()[15]);
            assert(t@[16]@ == extendable_keys()[16]);
            assert(t@[17]@ == extendable_keys()[17]);
            assert(t@[18]@ == extendable_keys()[18]);
            assert(t@[19]@ == extendable_keys()[19]);
        }
    }
    t
}

pub(crate) fn required_key_table() -> (t: Vec<&'static str>)
    ensures
        t@.len() == required_keys().len(),
        forall|i: int| 0 <= i < t@.len() ==> #[trigger] t@[i]@ == required_keys()[i],
{
    let t: Vec<&'static str> = vec!["pkgbase", "pkgname", "pkgver", "pkgrel", "arch"];
    proof {
        assert(forall|i: int| 0 <= i < t@.len() ==> #[trigger] t@[i]@ == required_keys()[i]) by {
            assert(t@[0]@ == required_keys()[0]);
            assert(t@[1]@ == required_keys()[1]);
            assert(t@[2]@ == required_keys()[2]);
            assert(t@[3]@ == required_keys()[3]);
            assert(t@[4]@ == required_keys()[4]);
        }
    }
    t
}

/// Membership of `s` among the views of `keys`.
fn str_in_list(keys: &Vec<&str>, s: &str) -> (r: bool)
    ensures
        r <==> exists|i: int| 0 <= i < keys@.len() && #[trigger] keys@[i]@ == s@,
{
    let n = keys.len();
    for j in 0..n
        invariant
            n == keys@.len(),
            forall|i: int| 0 <= i < j ==> #[trigger] keys@[i]@ != s@,
    {
        if str_eq(keys[j], s) {
            return true;
        }
    }
    false
}

/// Whether `s` is one of the single-valued keys.
pub fn is_string_key(s: &str) -> (r: bool)
    ensures
        r == string_key(s@),
{
    let t = string_key_table();
    let r = str_in_list(&t, s);
    proof {
        if r {
            let i = choose|i: int| 0 <= i < t@.len() && #[trigger] t@[i]@ == s@;
            assert(string_keys()[i] == s@);
        } else {
            assert forall|i: int| 0 <= i < string_keys().len() implies #[trigger] string_keys()[i]
                != s@ by {
                assert(t@[i]@ == string_keys()[i]);
            }
        }
    }
    r
}

/// Whether `s` is one of the array-valued keys.
pub fn is_array_key(s: &str) -> (r: bool)
    ensures
        r == array_key(s@),
{
    let t = array_key_table();
    let r = str_in_list(&t, s);
    proof {
        if r {
            let i = choose|i: int| 0 <= i < t@.len() && #[trigger] t@[i]@ == s@;
            assert(array_keys()[i] == s@);
        } else {
            assert forall|i: int| 0 <= i < array_keys().len() implies #[trigger] array_keys()[i]
                != s@ by {
                assert(t@[i]@ == array_keys()[i]);
            }
        }
    }
    r
}

/// Whether `s` is one of the keys that may carry a qualifier.
pub fn is_extendable_key(s: &str) -> (r: bool)
    ensures
        r == extendable_key(s@),
{
    let t = extendable_key_table();
    let r = str_in_list(&t, s);
    proof {
        if r {
            let i = choose|i: int| 0 <= i < t@.len() && #[trigger] t@[i]@ == s@;
            assert(extendable_keys()[i] == s@);
        } else {
            assert forall|i: int|
                0 <= i < extendable_keys().len() implies #[trigger] extendable_keys()[i] != s@ by {
                assert(t@[i]@ == extendable_keys()[i]);
            }
        }
    }
    r
}

/// Whether `s` is one of the keys a document must contain.
pub fn is_required_key(s: &str) -> (r: bool)
    ensures
        r == required_key(s@),
{
    let t = required_key_table();
    let r = str_in_list(&t, s);
    proof {
        if r {
            let i = choose|i: int| 0 <= i < t@.len() && #[trigger] t@[i]@ == s@;
            assert(required_keys()[i] == s@);
        } else {
            assert forall|i: int| 0 <= i < required_keys().len() implies #[trigger] required_keys()[i]
                != s@ by {
                assert(t@[i]@ == required_keys()[i]);
            }
        }
    }
    r
}

/// Whether `name` carries `base` in one of the three extension shapes.
pub fn is_extension_of(name: &str, base: &str) -> (r: bool)
    ensures
        r == extension_of(name@, base@),
{
    let n_len = name.unicode_len();
    let b_len = base.unicode_len();
    if n_len <= b_len {
        proof {
            if infix_extension(name@, base@) {
                let j = choose|j: int| infix_at(name@, base@, j);
                assert(false);
            }
        }
        return false;
    }
    if occurs_check(name, base, 0) && name.get_char(b_len) == '_' {
        return true;
    }
    if occurs_check(name, base, n_len - b_len) && name.get_char(n_len - b_len - 1) == '_' {
        return true;
    }
    let mut i: usize = 1;
    while i + b_len < n_len
        invariant
            n_len == name@.len(),
            b_len == base@.len(),
            b_len < n_len,
            1 <= i,
            i + b_len <= n_len,
            forall|j: int| 1 <= j < i ==> !#[trigger] infix_at(name@, base@, j),
        decreases n_len - i,
    {
        if name.get_char(i - 1) == '_' && occurs_check(name, base, i) && name.get_char(i + b_len)
            == '_' {
            proof {
                assert(infix_at(name@, base@, i as int));
            }
            return true;
        }
        i = i + 1;
    }
    proof {
        if infix_extension(name@, base@) {
            let j = choose|j: int| infix_at(name@, base@, j);
            assert(j < i ==> !infix_at(name@, base@, j));
            assert(false);
        }
    }
    false
}

/// `name` equals `key` or carries it in one of the three extension shapes.
pub fn matches_extension(name: &str, key: &str) -> (r: bool)
    ensures
        r == ext_match(name@, key@),
{
    if str_eq(name, key) {
        true
    } else {
        is_extension_of(name, key)
    }
}

/// Resolve a possibly qualified key to its base key: `name` itself when it is
/// a known string or array key, else the first extendable key of which `name`
/// is an extension, else nothing.
pub fn base_key<'a>(name: &'a str) -> (r: Option<&'a str>)
    ensures
        match r {
            Some(b) => base_key_of(name@) == Some(b@),
            None => base_key_of(name@) == None::<Seq<char>>,
        },
{
    if is_string_key(name) || is_array_key(name) {
        return Some(name);
    }
    let t = extendable_key_table();
    let n = t.len();
    let mut i: usize = 0;
    while i < n
        invariant
            n == t@.len(),
            n == extendable_keys().len(),
            forall|k: int| 0 <= k < t@.len() ==> #[trigger] t@[k]@ == extendable_keys()[k],
            i <= n,
            !string_key(name@),
            !array_key(name@),
            affix_base_from(name@, 0) == affix_base_from(name@, i as int),
        decreases n - i,
    {
        if is_extension_of(name, t[i]) {
            proof {
                assert(extension_of(name@, extendable_keys()[i as int]));
            }
            return Some(t[i]);
        }
        proof {
            assert(!extension_of(name@, extendable_keys()[i as int]));
        }
        i = i + 1;
    }
    None
}

} // verus!
