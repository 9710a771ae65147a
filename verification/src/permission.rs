//! The permission token: its model, its grammar and its rendering.
use vstd::prelude::*;
use vstd::string::*;
use crate::text::{find_dot, str_eq};

verus! {

/// The mathematical value of a [`Permission`]: two sequences of characters
/// and the negation flag.
pub struct PermissionView {
    pub namespace: Seq<char>,
    pub perm: Seq<char>,
    pub negator: bool,
}

/// The namespace that stands for every namespace.
pub open spec fn global_namespace() -> Seq<char> {
    "global"@
}

/// The permission name that stands for every name of its namespace.
pub open spec fn wildcard_perm() -> Seq<char> {
    "*"@
}

/// The permission name of the clear directive.
pub open spec fn clear_perm() -> Seq<char> {
    "@clear"@
}

/// The same permission as a grant.
pub open spec fn granted(p: PermissionView) -> PermissionView {
    PermissionView { negator: false, ..p }
}

/// The same permission with the opposite sign.
pub open spec fn opposite(p: PermissionView) -> PermissionView {
    PermissionView { negator: !p.negator, ..p }
}

/// Whether `p` is a wildcard grant.
pub open spec fn is_wildcard_grant(p: PermissionView) -> bool {
    !p.negator && p.perm == wildcard_perm()
}

/// Whether `p` is a clear directive. Its sign plays no part.
pub open spec fn is_clear_directive(p: PermissionView) -> bool {
    p.perm == clear_perm()
}

/// Whether `i` is the position of the first `.` of `s`.
pub open spec fn is_first_dot(s: Seq<char>, i: int) -> bool {
    &&& 0 <= i < s.len()
    &&& s[i] == '.'
    &&& forall|j: int| 0 <= j < i ==> s[j] != '.'
}

/// Position of the first `.` of `s`, if it has one.
pub open spec fn first_dot(s: Seq<char>) -> Option<int> {
    if exists|i: int| is_first_dot(s, i) {
        Some(choose|i: int| is_first_dot(s, i))
    } else {
        None
    }
}

/// A sequence has at most one first `.`.
pub proof fn lemma_first_dot_at(s: Seq<char>, i: int)
    requires
        is_first_dot(s, i),
    ensures
        first_dot(s) == Some(i),
{
    let k = choose|k: int| is_first_dot(s, k);
    if k < i {
        assert(s[k] != '.');
    } else if i < k {
        assert(s[i] != '.');
    }
}

/// A sequence without a `.` has no first `.`.
pub proof fn lemma_first_dot_none(s: Seq<char>)
    requires
        forall|j: int| 0 <= j < s.len() ==> s[j] != '.',
    ensures
        first_dot(s) is None,
{
}

/// A sequence that holds a `.` has a first `.`.
pub proof fn lemma_first_dot_some(s: Seq<char>)
    requires
        s.contains('.'),
    ensures
        first_dot(s) is Some,
        is_first_dot(s, first_dot(s)->0),
    decreases s.len(),
{
    let i = choose|i: int| 0 <= i < s.len() && s[i] == '.';
    if exists|j: int| 0 <= j < i && s[j] == '.' {
        let j = choose|j: int| 0 <= j < i && s[j] == '.';
        assert(s.take(i)[j] == '.');
        lemma_first_dot_some(s.take(i));
        let k = first_dot(s.take(i))->0;
        assert(is_first_dot(s, k)) by {
            assert(s.take(i)[k] == s[k]);
            assert forall|m: int| 0 <= m < k implies s[m] != '.' by {
                assert(s.take(i)[m] == s[m]);
            }
        }
    } else {
        assert(is_first_dot(s, i));
    }
}

/// Whether a token starts with the mark of a negator.
pub open spec fn has_negator_mark(token: Seq<char>) -> bool {
    token.len() > 0 && token[0] == '~'
}

/// A token without the mark of a negator, if it has one.
pub open spec fn token_body(token: Seq<char>) -> Seq<char> {
    if has_negator_mark(token) {
        token.skip(1)
    } else {
        token
    }
}

/// What a token means.
///
/// One leading `~` marks a negator and is taken off. The rest is split at
/// its first `.` into namespace and permission name; without a `.` the whole
/// rest is the permission name and the namespace is `global`.
pub open spec fn parse_token(token: Seq<char>) -> PermissionView {
    let negator = has_negator_mark(token);
    let body = token_body(token);
    match first_dot(body) {
        Some(dot) => PermissionView {
            namespace: body.take(dot),
            perm: body.skip(dot + 1),
            negator,
        },
        None => PermissionView { namespace: global_namespace(), perm: body, negator },
    }
}

/// The token of a permission: `~` if it is a negator, then the namespace, a
/// `.` and the permission name.
pub open spec fn render_token(p: PermissionView) -> Seq<char> {
    (if p.negator { seq!['~'] } else { Seq::<char>::empty() }) + p.namespace + seq!['.'] + p.perm
}

/// Whether a token is of the form `[~]namespace.perm`: behind the mark of
/// a negator, if there is one, it holds a `.`.
pub open spec fn is_well_formed(token: Seq<char>) -> bool {
    token_body(token).contains('.')
}

/// Round trip: a token of the form `[~]namespace.perm` is the rendering of
/// what it means.
pub proof fn lemma_render_parse(token: Seq<char>)
    requires
        is_well_formed(token),
    ensures
        render_token(parse_token(token)) == token,
{
    let body = token_body(token);
    lemma_first_dot_some(body);
    let dot = first_dot(body)->0;
    assert(body.take(dot) + seq!['.'] + body.skip(dot + 1) =~= body);
    assert(render_token(parse_token(token)) =~= token);
}

/// Round trip the other way: a permission whose namespace holds no `.`, and
/// starts with `~` only if the permission is a negator, is what its
/// rendering means.
pub proof fn lemma_parse_render(p: PermissionView)
    requires
        !p.namespace.contains('.'),
        p.negator || !has_negator_mark(p.namespace),
    ensures
        parse_token(render_token(p)) == p,
{
    let token = render_token(p);
    let body = p.namespace + seq!['.'] + p.perm;
    if p.negator {
        assert(token[0] == '~');
        assert(token.skip(1) =~= body);
    } else {
        assert(token =~= body);
        if p.namespace.len() > 0 {
            assert(token[0] == p.namespace[0]);
        } else {
            assert(token[0] == '.');
        }
    }
    assert(token_body(token) == body);
    let dot = p.namespace.len() as int;
    assert(is_first_dot(body, dot)) by {
        assert(body[dot] == '.');
        assert forall|j: int| 0 <= j < dot implies body[j] != '.' by {
            assert(body[j] == p.namespace[j]);
        }
    }
    lemma_first_dot_at(body, dot);
    assert(body.take(dot) =~= p.namespace);
    assert(body.skip(dot + 1) =~= p.perm);
}

/// A deconstructed permission token.
#[derive(Debug, Hash)]
pub struct Permission {
    pub namespace: String,
    pub perm: String,
    pub negator: bool,
}

impl View for Permission {
    type V = PermissionView;

    open spec fn view(&self) -> PermissionView {
        PermissionView { namespace: self.namespace@, perm: self.perm@, negator: self.negator }
    }
}

impl DeepView for Permission {
    type V = PermissionView;

    open spec fn deep_view(&self) -> PermissionView {
        self@
    }
}

impl Clone for Permission {
    fn clone(&self) -> (copy: Self)
        ensures
            copy == *self,
    {
        Permission {
            namespace: self.namespace.clone(),
            perm: self.perm.clone(),
            negator: self.negator,
        }
    }
}

impl PartialEq for Permission {
    fn eq(&self, other: &Self) -> (same: bool) {
        self.negator == other.negator && self.namespace == other.namespace && self.perm
            == other.perm
    }
}

impl vstd::std_specs::cmp::PartialEqSpecImpl for Permission {
    open spec fn obeys_eq_spec() -> bool {
        true
    }

    open spec fn eq_spec(&self, other: &Self) -> bool {
        self@ == other@
    }
}

impl Eq for Permission {

}

impl Permission {
    /// Parses a token. Every string parses.
    pub fn from_string(perm: &str) -> (parsed: Permission)
        ensures
            parsed@ == parse_token(perm@),
    {
        let len = perm.unicode_len();
        let negator = len > 0 && perm.get_char(0) == '~';
        let start: usize = if negator { 1 } else { 0 };
        let ghost body = token_body(perm@);
        assert(body =~= perm@.skip(start as int));
        let dot = find_dot(perm, len, start);
        assert(forall|j: int| 0 <= j < dot - start ==> body[j] != '.');
        if dot < len {
            proof {
                lemma_first_dot_at(body, dot - start);
            }
            let namespace = perm.substring_char(start, dot).to_owned();
            let name = perm.substring_char(dot + 1, len).to_owned();
            assert(namespace@ == body.take(dot - start));
            assert(name@ == body.skip(dot - start + 1));
            Permission { namespace, perm: name, negator }
        } else {
            proof {
                lemma_first_dot_none(body);
            }
            let name = perm.substring_char(start, len).to_owned();
            Permission { namespace: "global".to_owned(), perm: name, negator }
        }
    }

    /// The token of this permission.
    pub fn render(&self) -> (token: String)
        ensures
            token@ == render_token(self@),
    {
        let mut token = String::new();
        proof {
            reveal_strlit("~");
            reveal_strlit(".");
        }
        if self.negator {
            token.append("~");
        }
        token.append(self.namespace.as_str());
        token.append(".");
        token.append(self.perm.as_str());
        token
    }

    /// Whether this is a clear directive.
    pub fn is_clear(&self) -> (clear: bool)
        ensures
            clear == is_clear_directive(self@),
    {
        str_eq(self.perm.as_str(), "@clear")
    }

    /// Whether the permission name is the wildcard.
    pub fn is_wildcard(&self) -> (wildcard: bool)
        ensures
            wildcard == (self@.perm == wildcard_perm()),
    {
        str_eq(self.perm.as_str(), "*")
    }

    /// Whether the namespace is `global`.
    pub fn is_global(&self) -> (global: bool)
        ensures
            global == (self@.namespace == global_namespace()),
    {
        str_eq(self.namespace.as_str(), "global")
    }
}

impl From<&str> for Permission {
    fn from(perm: &str) -> (parsed: Permission)
        ensures
            parsed@ == parse_token(perm@),
    {
        Permission::from_string(perm)
    }
}

/// What the conversions give is stated by the `ensures` of `from`, over
/// views: no function of the model returns a `Permission`.
impl vstd::std_specs::convert::FromSpecImpl<&str> for Permission {
    open spec fn obeys_from_spec() -> bool {
        false
    }

    open spec fn from_spec(perm: &str) -> Self {
        arbitrary()
    }
}

impl From<String> for Permission {
    fn from(perm: String) -> (parsed: Permission)
        ensures
            parsed@ == parse_token(perm@),
    {
        Permission::from_string(perm.as_str())
    }
}

impl vstd::std_specs::convert::FromSpecImpl<String> for Permission {
    open spec fn obeys_from_spec() -> bool {
        false
    }

    open spec fn from_spec(perm: String) -> Self {
        arbitrary()
    }
}

impl From<&String> for Permission {
    fn from(perm: &String) -> (parsed: Permission)
        ensures
            parsed@ == parse_token(perm@),
    {
        Permission::from_string(perm.as_str())
    }
}

impl vstd::std_specs::convert::FromSpecImpl<&String> for Permission {
    open spec fn obeys_from_spec() -> bool {
        false
    }

    open spec fn from_spec(perm: &String) -> Self {
        arbitrary()
    }
}

impl PartialEq<String> for Permission {
    fn eq(&self, other: &String) -> (same: bool) {
        *self == Permission::from_string(other.as_str())
    }
}

impl vstd::std_specs::cmp::PartialEqSpecImpl<String> for Permission {
    open spec fn obeys_eq_spec() -> bool {
        true
    }

    open spec fn eq_spec(&self, other: &String) -> bool {
        self@ == parse_token(other@)
    }
}

/// Builds the token `namespace.perm`.
pub fn build(namespace: &str, perm: &str) -> (token: String)
    ensures
        token@ == namespace@ + seq!['.'] + perm@,
{
    proof {
        reveal_strlit(".");
    }
    let mut token = namespace.to_owned();
    token.append(".");
    token.append(perm);
    token
}

} // verus!
