//! What a share hands up: one file's bytes as one Stream, with where it came
//! from.

use vstd::prelude::*;

use crate::text::join;

verus! {

/// One Stream that arrived, and its origin.
#[derive(Clone, Debug, PartialEq, Eq)]
pub struct Arrived {
    pub origin_uri: String,
    pub bytes: Vec<u8>,
}

/// What an [`Arrived`] says, as a mathematical value.
#[verifier::ext_equal]
pub struct ArrivedView {
    pub origin_uri: Seq<char>,
    pub bytes: Seq<u8>,
}

impl View for Arrived {
    type V = ArrivedView;

    open spec fn view(&self) -> ArrivedView {
        ArrivedView { origin_uri: self.origin_uri@, bytes: self.bytes@ }
    }
}

impl DeepView for Arrived {
    type V = ArrivedView;

    open spec fn deep_view(&self) -> ArrivedView {
        self@
    }
}

impl Arrived {
    /// `bytes`, which came from `origin_uri`.
    pub fn new(origin_uri: String, bytes: Vec<u8>) -> (arrived: Self)
        ensures
            arrived@ == (ArrivedView { origin_uri: origin_uri@, bytes: bytes@ }),
    {
        Arrived { origin_uri, bytes }
    }
}

/// The URI of the file `name` on `share` at `authority`.
pub open spec fn origin_of(
    authority: Seq<char>,
    share: Seq<char>,
    name: Seq<char>,
) -> Seq<char> {
    "smb://"@ + authority + "/"@ + share + "/"@ + name
}

/// The URI of the file `name` on `share` at `authority`.
pub fn origin(authority: &str, share: &str, name: &str) -> (uri: String)
    ensures
        uri@ == origin_of(authority@, share@, name@),
{
    let tree = join(&join(&join("smb://", authority), "/"), share);
    join(&join(&tree, "/"), name)
}

/// The origin of a file holds all of its server, its share and its name, in this
/// order: it is `smb://`, the server, a slash, the share, a slash and the name,
/// and nothing else. Two files of one share have the same origin only if they
/// have the same name.
pub proof fn law_an_origin_names_its_file(
    authority: Seq<char>,
    share: Seq<char>,
    name: Seq<char>,
    other: Seq<char>,
)
    ensures
        ({
            let uri = origin_of(authority, share, name);
            let share_at = 7 + authority.len();
            let name_at = share_at + share.len() + 1;
            &&& uri.len() == 8 + authority.len() + share.len() + name.len()
            &&& uri.take(6) == seq!['s', 'm', 'b', ':', '/', '/']
            &&& uri.subrange(6, share_at - 1) == authority
            &&& uri[share_at - 1] == '/'
            &&& uri.subrange(share_at as int, name_at - 1) == share
            &&& uri[name_at - 1] == '/'
            &&& uri.skip(name_at as int) == name
            &&& origin_of(authority, share, other) == uri ==> other == name
        }),
{
    reveal_strlit("smb://");
    reveal_strlit("/");
    let uri = origin_of(authority, share, name);
    let name_at = 8 + authority.len() + share.len();
    assert(uri.take(6) =~= seq!['s', 'm', 'b', ':', '/', '/']);
    assert(uri.subrange(6, 6 + authority.len() as int) =~= authority);
    assert(uri.subrange(7 + authority.len() as int, name_at - 1) =~= share);
    assert(uri.skip(name_at as int) =~= name);
    assert(origin_of(authority, share, other).skip(name_at as int) =~= other);
}

} // verus!
