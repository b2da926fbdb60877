//! From an image reference to the package URL under which its SBOM is
//! looked up.

use crate::api::ImageRef;
use vstd::prelude::*;
use vstd::string::*;

verus! {

/// The position of the last `c` in `s`, if `c` occurs.
pub open spec fn last_index(s: Seq<char>, c: char) -> Option<int>
    decreases s.len(),
{
    if s.len() == 0 {
        None
    } else if s.last() == c {
        Some(s.len() - 1)
    } else {
        last_index(s.drop_last(), c)
    }
}

/// `last_index` finds the position after which `c` occurs no more.
pub proof fn lemma_last_index(s: Seq<char>, c: char)
    ensures
        match last_index(s, c) {
            Some(i) => 0 <= i < s.len() && s[i] == c && forall|j: int| i < j < s.len() ==> s[j] != c,
            None => forall|j: int| 0 <= j < s.len() ==> s[j] != c,
        },
    decreases s.len(),
{
    if s.len() > 0 && s.last() != c {
        lemma_last_index(s.drop_last(), c);
        match last_index(s.drop_last(), c) {
            Some(i) => {
                assert forall|j: int| i < j < s.len() implies s[j] != c by {
                    if j < s.len() - 1 {
                        assert(s.drop_last()[j] == s[j]);
                    }
                }
            },
            None => {
                assert forall|j: int| 0 <= j < s.len() implies s[j] != c by {
                    if j < s.len() - 1 {
                        assert(s.drop_last()[j] == s[j]);
                    }
                }
            },
        }
    }
}

/// There is one last position of `c`: the one after which `c` occurs no more.
pub proof fn lemma_last_index_is(s: Seq<char>, c: char, i: int)
    requires
        0 <= i < s.len(),
        s[i] == c,
        forall|j: int| i < j < s.len() ==> s[j] != c,
    ensures
        last_index(s, c) == Some(i),
{
    lemma_last_index(s, c);
}

/// The digest prefix an image reference must carry.
pub open spec fn digest_prefix() -> Seq<char> {
    seq!['s', 'h', 'a', '2', '5', '6', ':']
}

/// The package name and the digest of an image reference `base@digest`:
/// the reference is cut at its last `@`, the name is what follows the last
/// `/` of the base, and the digest must begin with `sha256:`.
pub open spec fn image_parts(image: Seq<char>) -> Option<(Seq<char>, Seq<char>)> {
    match last_index(image, '@') {
        Some(at) => {
            let base = image.take(at);
            let digest = image.skip(at + 1);
            let name = match last_index(base, '/') {
                Some(slash) => base.skip(slash + 1),
                None => base,
            };
            if digest_prefix().is_prefix_of(digest) {
                Some((name, digest))
            } else {
                None
            }
        },
        None => None,
    }
}

/// The position of the last `c` in `s`.
fn rfind(s: &str, c: char) -> (r: Option<usize>)
    ensures
        r is Some == last_index(s@, c) is Some,
        r matches Some(i) ==> last_index(s@, c) == Some(i as int) && i < s@.len(),
{
    let n = s.unicode_len();
    let mut i: usize = n;
    while i > 0
        invariant
            i <= n,
            n == s@.len(),
            forall|j: int| i <= j < n ==> s@[j] != c,
        decreases i,
    {
        i -= 1;
        if s.get_char(i) == c {
            proof {
                lemma_last_index_is(s@, c, i as int);
            }
            return Some(i);
        }
    }
    proof {
        lemma_last_index(s@, c);
    }
    None
}

/// Whether `s` begins with `sha256:`.
fn has_digest_prefix(s: &str) -> (r: bool)
    ensures
        r == digest_prefix().is_prefix_of(s@),
{
    let n = s.unicode_len();
    if n < 7 {
        return false;
    }
    let head = s.substring_char(0, 7);
    let r = head.get_char(0) == 's' && head.get_char(1) == 'h' && head.get_char(2) == 'a'
        && head.get_char(3) == '2' && head.get_char(4) == '5' && head.get_char(5) == '6'
        && head.get_char(6) == ':';
    proof {
        let p = digest_prefix();
        if r {
            assert(p =~= s@.subrange(0, 7));
        } else {
            if p.is_prefix_of(s@) {
                assert(s@.subrange(0, 7) =~= p);
            }
        }
    }
    r
}

/// Cuts an image reference into package name and digest.
pub fn split_image(image: &ImageRef) -> (r: Option<(String, String)>)
    ensures
        r is Some == image_parts(image@) is Some,
        r matches Some((name, digest)) ==> image_parts(image@) == Some((name@, digest@)),
{
    let text = image.as_str();
    let n = text.unicode_len();
    match rfind(text, '@') {
        Some(at) => {
            let base = text.substring_char(0, at);
            let digest = text.substring_char(at + 1, n);
            proof {
                assert(base@ =~= image@.take(at as int));
                assert(digest@ =~= image@.skip(at as int + 1));
            }
            let name = match rfind(base, '/') {
                Some(slash) => {
                    let m = base.unicode_len();
                    let name = base.substring_char(slash + 1, m);
                    assert(name@ =~= base@.skip(slash as int + 1));
                    name
                },
                None => base,
            };
            if has_digest_prefix(digest) {
                Some((name.to_owned(), digest.to_owned()))
            } else {
                None
            }
        },
        None => None,
    }
}

/// Whether `ty` can be the type of a package URL: it is not empty, does
/// not begin with a digit, and holds only ASCII letters, digits, `.`, `+`
/// and `-`.
pub open spec fn purl_type_valid(ty: Seq<char>) -> bool {
    &&& ty.len() > 0
    &&& !('0' <= ty[0] <= '9')
    &&& forall|i: int|
        0 <= i < ty.len() ==> {
            let c = #[trigger] ty[i];
            c == '.' || c == '-' || c == '+' || ('a' <= c <= 'z') || ('A' <= c <= 'Z') || ('0'
                <= c <= '9')
        }
}

/// Whether a package URL shows every character of `s` as it is: `s` holds
/// only ASCII letters, digits, `.`, `-`, `_`, `:` and `/`.
pub open spec fn purl_plain(s: Seq<char>) -> bool {
    forall|i: int|
        0 <= i < s.len() ==> {
            let c = #[trigger] s[i];
            c == '.' || c == '-' || c == '_' || c == ':' || c == '/' || ('a' <= c <= 'z') || ('A'
                <= c <= 'Z') || ('0' <= c <= '9')
        }
}

/// Whether a package URL of type `ty` keeps type and name as they are
/// given: `ty` is made of lower-case ASCII letters and is none of the
/// types whose names are folded.
pub open spec fn purl_type_plain(ty: Seq<char>) -> bool {
    &&& ty.len() > 0
    &&& forall|i: int| 0 <= i < ty.len() ==> 'a' <= #[trigger] ty[i] <= 'z'
    &&& ty != "bitbucket"@
    &&& ty != "deb"@
    &&& ty != "github"@
    &&& ty != "hex"@
    &&& ty != "npm"@
    &&& ty != "pypi"@
}

/// The text of the package URL of the given type, name and version, as
/// the `packageurl` crate writes it.
pub uninterp spec fn purl_string(ty: Seq<char>, name: Seq<char>, version: Seq<char>) -> Seq<char>;

/// Builds a package URL with `packageurl::PackageUrl::new`, gives it the
/// version with `with_version`, and writes it out with its `Display`.
///
/// Claimed of the crate: `new` fails exactly on an invalid type; the text
/// written depends on type, name and version alone; and where the type
/// is kept as given and name and version need no percent-encoding, the
/// text is `pkg:<type>/<name>@<version>`.
#[verifier::external_body]
fn purl_text(ty: &str, name: &str, version: &str) -> (r: Option<String>)
    ensures
        r is Some == purl_type_valid(ty@),
        r matches Some(text) ==> text@ == purl_string(ty@, name@, version@),
        r matches Some(text) ==> (purl_type_plain(ty@) && purl_plain(name@) && purl_plain(version@)
            ==> text@ == "pkg:"@ + ty@ + "/"@ + name@ + "@"@ + version@),
{
    match packageurl::PackageUrl::new(ty, name) {
        Ok(mut purl) => {
            purl.with_version(version);
            Some(purl.to_string())
        },
        Err(_) => None,
    }
}

/// The text that tells why no package URL could be made for `image`.
pub open spec fn no_purl_message(image: Seq<char>) -> Seq<char> {
    "Unable to create PURL for: "@ + image
}

/// What `purl_for` returns: the package URL of type `oci` for the name and
/// digest of the image, or the message that the image has none.
pub open spec fn purl_of(image: Seq<char>) -> Result<Seq<char>, Seq<char>> {
    match image_parts(image) {
        Some((name, digest)) => Ok(purl_string("oci"@, name, digest)),
        None => Err(no_purl_message(image)),
    }
}

/// The package URL `pkg:oci/<name>@<digest>` under which the SBOM of
/// `image` is looked up, or the message that the image has none.
pub fn purl_for(image: &ImageRef) -> (r: Result<String, String>)
    ensures
        r is Ok == purl_of(image@) is Ok,
        r matches Ok(text) ==> purl_of(image@) == Ok::<Seq<char>, Seq<char>>(text@),
        r matches Err(message) ==> purl_of(image@) == Err::<Seq<char>, Seq<char>>(message@),
        r matches Ok(text) ==> (image_parts(image@) matches Some((name, digest)) && (purl_plain(name)
            && purl_plain(digest) ==> text@ == "pkg:oci/"@ + name + "@"@ + digest)),
{
    match split_image(image) {
        Some((name, digest)) => {
            proof {
                reveal_strlit("oci");
                reveal_strlit("bitbucket");
                reveal_strlit("deb");
                reveal_strlit("github");
                reveal_strlit("hex");
                reveal_strlit("npm");
                reveal_strlit("pypi");
                reveal_strlit("pkg:");
                reveal_strlit("/");
                reveal_strlit("pkg:oci/");
                assert("deb"@[0] == 'd');
                assert("hex"@[0] == 'h');
                assert("npm"@[0] == 'n');
                assert(purl_type_plain("oci"@));
                assert("pkg:"@ + "oci"@ + "/"@ =~= "pkg:oci/"@);
            }
            match purl_text("oci", name.as_str(), digest.as_str()) {
                Some(text) => Ok(text),
                None => {
                    assert(false);
                    Err(String::new())
                },
            }
        },
        None => {
            let message = "Unable to create PURL for: ".to_owned().concat(image.as_str());
            Err(message)
        },
    }
}

} // verus!
