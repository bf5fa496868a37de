//! The pure part of the static-file front end: where its files live
//! and which content type a path maps to.  Reading and sending files
//! is transport work and stays outside this crate.

use vstd::prelude::*;
use vstd::string::StringSliceAdditionalSpecFns;

verus! {

/// Serves the browser front end from one directory.
#[derive(Debug, Clone)]
pub struct StaticFileServer {
    pub frontend_dir: String,
}

/// True when `s` ends in `suffix`.
pub open spec fn suffix_is(s: Seq<u8>, suffix: Seq<u8>) -> bool {
    s.len() >= suffix.len() && s.subrange(s.len() - suffix.len(), s.len() as int) == suffix
}

/// The bytes of `".html"`.
pub open spec fn ext_html() -> Seq<u8> {
    seq![46u8, 104u8, 116u8, 109u8, 108u8]
}

/// The bytes of `".css"`.
pub open spec fn ext_css() -> Seq<u8> {
    seq![46u8, 99u8, 115u8, 115u8]
}

/// The bytes of `".js"`.
pub open spec fn ext_js() -> Seq<u8> {
    seq![46u8, 106u8, 115u8]
}

/// The bytes of `".json"`.
pub open spec fn ext_json() -> Seq<u8> {
    seq![46u8, 106u8, 115u8, 111u8, 110u8]
}

/// The bytes of `".png"`.
pub open spec fn ext_png() -> Seq<u8> {
    seq![46u8, 112u8, 110u8, 103u8]
}

/// The bytes of `".jpg"`.
pub open spec fn ext_jpg() -> Seq<u8> {
    seq![46u8, 106u8, 112u8, 103u8]
}

/// The bytes of `".jpeg"`.
pub open spec fn ext_jpeg() -> Seq<u8> {
    seq![46u8, 106u8, 112u8, 101u8, 103u8]
}

/// The bytes of `".svg"`.
pub open spec fn ext_svg() -> Seq<u8> {
    seq![46u8, 115u8, 118u8, 103u8]
}

/// The content type a file path maps to, by its extension.
pub open spec fn content_type_spec(b: Seq<u8>) -> Seq<char> {
    if suffix_is(b, ext_html()) {
        "text/html; charset=utf-8"@
    } else if suffix_is(b, ext_css()) {
        "text/css"@
    } else if suffix_is(b, ext_js()) {
        "application/javascript"@
    } else if suffix_is(b, ext_json()) {
        "application/json"@
    } else if suffix_is(b, ext_png()) {
        "image/png"@
    } else if suffix_is(b, ext_jpg()) || suffix_is(b, ext_jpeg()) {
        "image/jpeg"@
    } else if suffix_is(b, ext_svg()) {
        "image/svg+xml"@
    } else {
        "text/plain"@
    }
}

/// True when the byte slice ends in `suffix`.
fn ends_in(b: &[u8], suffix: &Vec<u8>) -> (r: bool)
    ensures
        r == suffix_is(b@, suffix@),
{
    let blen = b.len();
    let slen = suffix.len();
    if blen < slen {
        return false;
    }
    let start = blen - slen;
    let mut i: usize = 0;
    while i < slen
        invariant
            i <= slen,
            slen <= blen == b@.len(),
            start == blen - slen,
            slen == suffix@.len(),
            forall|k: int| 0 <= k < i ==> b@[start + k] == suffix@[k],
        decreases slen - i,
    {
        if b[start + i] != suffix[i] {
            proof {
                assert(b@.subrange(start as int, blen as int)[i as int] != suffix@[i as int]);
            }
            return false;
        }
        i += 1;
    }
    proof {
        assert(b@.subrange(start as int, blen as int) =~= suffix@);
    }
    true
}

impl StaticFileServer {
    /// A server rooted at the given directory.
    pub fn new(frontend_dir: &str) -> (s: StaticFileServer)
        ensures
            s.frontend_dir@ == frontend_dir@,
    {
        StaticFileServer { frontend_dir: frontend_dir.to_owned() }
    }

    /// The content type to serve a file under, decided by its
    /// extension; unknown extensions are plain text.
    pub fn get_content_type(&self, file_path: &str) -> (r: &'static str)
        ensures
            r@ == content_type_spec(file_path.spec_bytes()),
    {
        let b = file_path.as_bytes();
        let ext: Vec<u8> = vec![46u8, 104u8, 116u8, 109u8, 108u8];
        proof {
            assert(ext@ =~= ext_html());
        }
        if ends_in(b, &ext) {
            return "text/html; charset=utf-8";
        }
        let ext: Vec<u8> = vec![46u8, 99u8, 115u8, 115u8];
        proof {
            assert(ext@ =~= ext_css());
        }
        if ends_in(b, &ext) {
            return "text/css";
        }
        let ext: Vec<u8> = vec![46u8, 106u8, 115u8];
        proof {
            assert(ext@ =~= ext_js());
        }
        if ends_in(b, &ext) {
            return "application/javascript";
        }
        let ext: Vec<u8> = vec![46u8, 106u8, 115u8, 111u8, 110u8];
        proof {
            assert(ext@ =~= ext_json());
        }
        if ends_in(b, &ext) {
            return "application/json";
        }
        let ext: Vec<u8> = vec![46u8, 112u8, 110u8, 103u8];
        proof {
            assert(ext@ =~= ext_png());
        }
        if ends_in(b, &ext) {
            return "image/png";
        }
        let ext: Vec<u8> = vec![46u8, 106u8, 112u8, 103u8];
        proof {
            assert(ext@ =~= ext_jpg());
        }
        if ends_in(b, &ext) {
            return "image/jpeg";
        }
        let ext: Vec<u8> = vec![46u8, 106u8, 112u8, 101u8, 103u8];
        proof {
            assert(ext@ =~= ext_jpeg());
        }
        if ends_in(b, &ext) {
            return "image/jpeg";
        }
        let ext: Vec<u8> = vec![46u8, 115u8, 118u8, 103u8];
        proof {
            assert(ext@ =~= ext_svg());
        }
        if ends_in(b, &ext) {
            return "image/svg+xml";
        }
        "text/plain"
    }
}

} // verus!
