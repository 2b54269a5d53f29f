//! The type descriptor of one parsed argument: its decorations (reference,
//! pointer, const) and its base type name, with the encodings the Itanium
//! subset gives them.

use vstd::prelude::*;
use vstd::string::*;
use crate::text::{
    const_at, const_at_str, contains_const, dec_rec, str_contains_char, str_contains_const, trim,
    trimmed, usize_dec, views_of,
};

verus! {

/// One function argument as written in source, classified: whether it is a
/// reference, a pointer, const-qualified, and its type name with all
/// decoration stripped.
pub struct Arg {
    pub is_reference: bool,
    pub is_pointer: bool,
    pub is_const: bool,
    pub base_name: String,
}

/// The mathematical view of an [`Arg`].
#[verifier::ext_equal]
pub struct ArgView {
    pub is_reference: bool,
    pub is_pointer: bool,
    pub is_const: bool,
    pub base_name: Seq<char>,
}

impl View for Arg {
    type V = ArgView;

    open spec fn view(&self) -> ArgView {
        ArgView {
            is_reference: self.is_reference,
            is_pointer: self.is_pointer,
            is_const: self.is_const,
            base_name: self.base_name@,
        }
    }
}

impl ArgView {
    /// A descriptor is well formed when it is not both a reference and a
    /// pointer: the dialect supports no compound indirection.
    pub open spec fn wf(self) -> bool {
        !(self.is_reference && self.is_pointer)
    }
}

/// The decoration prefix of an argument encoding, in the ABI's fixed order:
/// `R` (reference) before `P` (pointer) before `K` (const). A bare `K` never
/// occurs: a const argument passed by value carries no prefix at all.
#[derive(Clone, Copy, PartialEq, Eq, Structural, Debug)]
pub enum Prefix {
    Empty,
    R,
    P,
    RK,
    PK,
}

/// The prefix composed from a well-formed descriptor's decorations.
pub open spec fn spec_prefix(a: ArgView) -> Prefix
    recommends
        a.wf(),
{
    if a.is_reference {
        if a.is_const {
            Prefix::RK
        } else {
            Prefix::R
        }
    } else if a.is_pointer {
        if a.is_const {
            Prefix::PK
        } else {
            Prefix::P
        }
    } else {
        Prefix::Empty
    }
}

/// The characters a prefix contributes to an encoding.
pub open spec fn prefix_chars(p: Prefix) -> Seq<char> {
    match p {
        Prefix::Empty => Seq::empty(),
        Prefix::R => seq!['R'],
        Prefix::P => seq!['P'],
        Prefix::RK => seq!['R', 'K'],
        Prefix::PK => seq!['P', 'K'],
    }
}

/// Whether `name` spells one of the four fundamental types.
pub open spec fn spec_is_pod(name: Seq<char>) -> bool {
    ||| name == seq!['i', 'n', 't']
    ||| name == seq!['f', 'l', 'o', 'a', 't']
    ||| name == seq!['d', 'o', 'u', 'b', 'l', 'e']
    ||| name == seq!['c', 'h', 'a', 'r']
}

/// The single-letter code of a fundamental type.
pub open spec fn pod_code(name: Seq<char>) -> char
    recommends
        spec_is_pod(name),
{
    if name == seq!['i', 'n', 't'] {
        'i'
    } else if name == seq!['f', 'l', 'o', 'a', 't'] {
        'f'
    } else if name == seq!['d', 'o', 'u', 'b', 'l', 'e'] {
        'd'
    } else {
        'c'
    }
}

/// Whether two strings hold the same characters.
fn str_eq(a: &str, b: &str) -> (r: bool)
    ensures
        r == (a@ == b@),
{
    let la = a.unicode_len();
    let lb = b.unicode_len();
    if la != lb {
        return false;
    }
    let mut j: usize = 0;
    while j < la
        invariant
            j <= la,
            la == a@.len(),
            la == b@.len(),
            forall|k: int| 0 <= k < j ==> a@[k] == b@[k],
        decreases la - j,
    {
        if a.get_char(j) != b.get_char(j) {
            return false;
        }
        j = j + 1;
    }
    proof {
        assert(a@ =~= b@);
    }
    true
}

/// Whether the raw argument contains a `*`.
pub fn is_pointer(arg: &str) -> (r: bool)
    ensures
        r == arg@.contains('*'),
{
    str_contains_char(arg, '*')
}

/// Whether the raw argument contains a `&`.
pub fn is_reference(arg: &str) -> (r: bool)
    ensures
        r == arg@.contains('&'),
{
    str_contains_char(arg, '&')
}

/// Whether the raw argument contains the keyword `const`.
pub fn is_const(arg: &str) -> (r: bool)
    ensures
        r == contains_const(arg@),
{
    str_contains_const(arg)
}

/// Whether `name` spells one of the four fundamental types.
pub fn is_pod(name: &str) -> (r: bool)
    ensures
        r == spec_is_pod(name@),
{
    let r = str_eq(name, "int") || str_eq(name, "float") || str_eq(name, "double")
        || str_eq(name, "char");
    proof {
        reveal_strlit("int");
        reveal_strlit("float");
        reveal_strlit("double");
        reveal_strlit("char");
        assert("int"@ =~= seq!['i', 'n', 't']);
        assert("float"@ =~= seq!['f', 'l', 'o', 'a', 't']);
        assert("double"@ =~= seq!['d', 'o', 'u', 'b', 'l', 'e']);
        assert("char"@ =~= seq!['c', 'h', 'a', 'r']);
    }
    r
}

/// The single-letter code of a fundamental type name.
pub fn mangle_pod(name: &str) -> (r: &'static str)
    requires
        spec_is_pod(name@),
    ensures
        r@ == seq![pod_code(name@)],
{
    proof {
        reveal_strlit("int");
        reveal_strlit("float");
        reveal_strlit("double");
        reveal_strlit("char");
        assert("int"@ =~= seq!['i', 'n', 't']);
        assert("float"@ =~= seq!['f', 'l', 'o', 'a', 't']);
        assert("double"@ =~= seq!['d', 'o', 'u', 'b', 'l', 'e']);
        assert("char"@ =~= seq!['c', 'h', 'a', 'r']);
        reveal_strlit("i");
        reveal_strlit("f");
        reveal_strlit("d");
        reveal_strlit("c");
        assert("i"@ =~= seq!['i']);
        assert("f"@ =~= seq!['f']);
        assert("d"@ =~= seq!['d']);
        assert("c"@ =~= seq!['c']);
    }
    if str_eq(name, "int") {
        "i"
    } else if str_eq(name, "float") {
        "f"
    } else if str_eq(name, "double") {
        "d"
    } else {
        "c"
    }
}

/// `s` with a leading `const` keyword removed and the rest trimmed.
pub open spec fn strip_const_front(s: Seq<char>) -> Seq<char> {
    if const_at(s, 0) {
        trimmed(s.subrange(5, s.len() as int))
    } else {
        s
    }
}

/// `s` with one trailing `*` removed and the rest trimmed.
pub open spec fn strip_star(s: Seq<char>) -> Seq<char> {
    if s.len() > 0 && s[s.len() - 1] == '*' {
        trimmed(s.drop_last())
    } else {
        s
    }
}

/// `s` with one trailing `&` removed and the rest trimmed.
pub open spec fn strip_amp(s: Seq<char>) -> Seq<char> {
    if s.len() > 0 && s[s.len() - 1] == '&' {
        trimmed(s.drop_last())
    } else {
        s
    }
}

/// The base type name of a raw argument: the argument without a leading
/// `const` keyword, without one trailing `*` and then one trailing `&`,
/// trimmed after each removal.
pub open spec fn spec_extract_type(s: Seq<char>) -> Seq<char> {
    strip_amp(strip_star(strip_const_front(s)))
}

/// The base type name of one raw argument string.
pub fn extract_type(arg: &str) -> (r: String)
    ensures
        r@ == spec_extract_type(arg@),
{
    let len = arg.unicode_len();
    let mut cur: String;
    if len >= 5 && const_at_str(arg, 0) {
        cur = trim(arg.substring_char(5, len));
    } else {
        cur = String::from_str(arg);
    }
    proof {
        assert(cur@ == strip_const_front(arg@));
    }
    let l1 = cur.as_str().unicode_len();
    if l1 > 0 && cur.as_str().get_char(l1 - 1) == '*' {
        let ghost prev = cur@;
        let head = trim(cur.as_str().substring_char(0, l1 - 1));
        proof {
            assert(prev.subrange(0, l1 - 1) =~= prev.drop_last());
        }
        cur = head;
    }
    proof {
        assert(cur@ == strip_star(strip_const_front(arg@)));
    }
    let l2 = cur.as_str().unicode_len();
    if l2 > 0 && cur.as_str().get_char(l2 - 1) == '&' {
        let ghost prev = cur@;
        let head = trim(cur.as_str().substring_char(0, l2 - 1));
        proof {
            assert(prev.subrange(0, l2 - 1) =~= prev.drop_last());
        }
        cur = head;
    }
    proof {
        assert(cur@ == spec_extract_type(arg@));
    }
    cur
}

/// The view of the descriptor parsed from one trimmed raw argument string.
pub open spec fn spec_parse_arg(s: Seq<char>) -> ArgView {
    ArgView {
        is_reference: s.contains('&'),
        is_pointer: s.contains('*'),
        is_const: contains_const(s),
        base_name: spec_extract_type(s),
    }
}

/// The length-prefixed spelling of a class-like type name.
pub open spec fn named_code(name: Seq<char>) -> Seq<char> {
    dec_rec(name.len() as int) + name
}

/// The encoding of an argument's referent alone: the single-letter code of a
/// fundamental type, the length-prefixed spelling otherwise.
pub open spec fn base_code(a: ArgView) -> Seq<char> {
    if spec_is_pod(a.base_name) {
        seq![pod_code(a.base_name)]
    } else {
        named_code(a.base_name)
    }
}

/// The full literal encoding of an argument: its prefix, then its referent
/// code.
pub open spec fn spec_encode_arg(a: ArgView) -> Seq<char> {
    prefix_chars(spec_prefix(a)) + base_code(a)
}

/// Whether an argument's encoding carries an outer indirection letter.
pub open spec fn has_outer(a: ArgView) -> bool {
    a.is_reference || a.is_pointer
}

/// The outer indirection letter of an argument's encoding.
pub open spec fn outer_char(a: ArgView) -> char
    recommends
        has_outer(a),
{
    if a.is_reference {
        'R'
    } else {
        'P'
    }
}

/// The encoding of an argument's referent behind its outer indirection: the
/// inner const form when the argument is const-qualified, the bare referent
/// code otherwise.
pub open spec fn partial_code(a: ArgView) -> Seq<char> {
    if a.is_const {
        seq!['K'] + base_code(a)
    } else {
        base_code(a)
    }
}

/// The characters of a prefix, as a string slice.
pub fn prefix_str(p: Prefix) -> (r: &'static str)
    ensures
        r@ == prefix_chars(p),
{
    proof {
        reveal_strlit("");
        reveal_strlit("R");
        reveal_strlit("P");
        reveal_strlit("RK");
        reveal_strlit("PK");
        assert(""@ =~= Seq::<char>::empty());
        assert("R"@ =~= seq!['R']);
        assert("P"@ =~= seq!['P']);
        assert("RK"@ =~= seq!['R', 'K']);
        assert("PK"@ =~= seq!['P', 'K']);
    }
    match p {
        Prefix::Empty => "",
        Prefix::R => "R",
        Prefix::P => "P",
        Prefix::RK => "RK",
        Prefix::PK => "PK",
    }
}

impl Arg {
    /// Classifies one trimmed raw argument string. Any string decomposes into
    /// some descriptor; whether the base name is meaningful is the mangler's
    /// concern.
    pub fn parse(s: &str) -> (a: Arg)
        ensures
            a@ == spec_parse_arg(s@),
    {
        Arg {
            is_reference: is_reference(s),
            is_pointer: is_pointer(s),
            is_const: is_const(s),
            base_name: extract_type(s),
        }
    }

    /// The prefix composed from this descriptor's decorations, or `None` for
    /// the one combination the dialect rejects: both reference and pointer.
    pub fn prefix(&self) -> (r: Option<Prefix>)
        ensures
            self@.wf() ==> r == Some(spec_prefix(self@)),
            !self@.wf() ==> r is None,
    {
        if self.is_reference && self.is_pointer {
            None
        } else if self.is_reference {
            if self.is_const {
                Some(Prefix::RK)
            } else {
                Some(Prefix::R)
            }
        } else if self.is_pointer {
            if self.is_const {
                Some(Prefix::PK)
            } else {
                Some(Prefix::P)
            }
        } else {
            Some(Prefix::Empty)
        }
    }

    /// The encoding of this argument's referent alone.
    pub fn base_str(&self) -> (r: String)
        ensures
            r@ == base_code(self@),
    {
        let mut r = String::new();
        if is_pod(self.base_name.as_str()) {
            r.append(mangle_pod(self.base_name.as_str()));
        } else {
            let len_str = usize_dec(self.base_name.as_str().unicode_len());
            r.append(len_str.as_str());
            r.append(self.base_name.as_str());
        }
        proof {
            assert(r@ =~= base_code(self@));
        }
        r
    }

    /// The referent encoding behind the outer indirection letter: `K` first
    /// when the argument is const-qualified.
    pub fn partial_str(&self) -> (r: String)
        ensures
            r@ == partial_code(self@),
    {
        let mut r = String::new();
        if self.is_const {
            r.append("K");
        }
        let base = self.base_str();
        r.append(base.as_str());
        proof {
            reveal_strlit("K");
            assert("K"@ =~= seq!['K']);
            assert(r@ =~= partial_code(self@));
        }
        r
    }

    /// The full literal encoding of this argument.
    pub fn mangled(&self) -> (r: String)
        requires
            self@.wf(),
        ensures
            r@ == spec_encode_arg(self@),
    {
        let mut r = match self.prefix() {
            Some(p) => String::from_str(prefix_str(p)),
            None => String::new(),
        };
        let base = self.base_str();
        r.append(base.as_str());
        proof {
            assert(r@ =~= spec_encode_arg(self@));
        }
        r
    }

    /// The substitution entries a fundamental-type argument registers when
    /// its encoding is first spelled out, in registration order; empty for a
    /// class-like argument and for a fundamental type passed by value.
    pub fn s_list(&self) -> (r: Vec<String>)
        requires
            self@.wf(),
        ensures
            views_of(r@) == if spec_is_pod(self@.base_name) {
                spec_pod_regs(self@)
            } else {
                Seq::<Seq<char>>::empty()
            },
    {
        let mut r: Vec<String> = Vec::new();
        if !is_pod(self.base_name.as_str()) {
            proof {
                assert(views_of(r@) =~~= Seq::<Seq<char>>::empty());
            }
            return r;
        }
        match self.prefix() {
            Some(Prefix::R) | Some(Prefix::P) => {
                r.push(self.mangled());
                proof {
                    assert(views_of(r@) =~~= spec_pod_regs(self@));
                }
            },
            Some(Prefix::RK) | Some(Prefix::PK) => {
                let mut inner = String::from_str("K");
                inner.append(mangle_pod(self.base_name.as_str()));
                proof {
                    reveal_strlit("K");
                    assert("K"@ =~= seq!['K']);
                    assert(inner@ =~= seq!['K', pod_code(self@.base_name)]);
                }
                r.push(inner);
                r.push(self.mangled());
                proof {
                    assert(views_of(r@) =~~= spec_pod_regs(self@));
                }
            },
            _ => {
                proof {
                    assert(views_of(r@) =~~= Seq::<Seq<char>>::empty());
                }
            },
        }
        r
    }
}

/// The substitution entries a fundamental-type argument registers when its
/// encoding is first spelled out: the inner const form (`Ki`) before the full
/// compound (`PKi`) for a const pointer or reference, the full compound alone
/// for a plain one, and nothing for a fundamental type passed by value.
pub open spec fn spec_pod_regs(a: ArgView) -> Seq<Seq<char>>
    recommends
        a.wf(),
        spec_is_pod(a.base_name),
{
    match spec_prefix(a) {
        Prefix::Empty => Seq::<Seq<char>>::empty(),
        Prefix::R | Prefix::P => seq![spec_encode_arg(a)],
        Prefix::RK | Prefix::PK => seq![
            seq!['K', pod_code(a.base_name)],
            spec_encode_arg(a),
        ],
    }
}

} // verus!
