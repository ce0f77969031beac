//! What the static front end serves for a request path, and the page
//! template's one substitution.

use vstd::prelude::*;

verus! {

/// The template token in the index page that stands for the demo flag.
pub open spec fn demo_token() -> Seq<u8> {
    seq![95u8, 95u8, 73u8, 83u8, 95u8, 68u8, 69u8, 77u8, 79u8, 95u8, 95u8]
}

/// `true` or `false`, as ASCII bytes.
pub open spec fn bool_text(b: bool) -> Seq<u8> {
    if b {
        seq![116u8, 114u8, 117u8, 101u8]
    } else {
        seq![102u8, 97u8, 108u8, 115u8, 101u8]
    }
}

/// `s` with each occurrence of `token`, taken from the left without overlap,
/// replaced by `value`.
pub open spec fn replace_all(s: Seq<u8>, token: Seq<u8>, value: Seq<u8>) -> Seq<u8>
    decreases s.len(),
{
    if token.len() == 0 || s.len() < token.len() {
        s
    } else if s.take(token.len() as int) == token {
        value + replace_all(s.skip(token.len() as int), token, value)
    } else {
        seq![s[0]] + replace_all(s.skip(1), token, value)
    }
}

/// The request path without its leading slashes.
pub open spec fn trim_slashes(s: Seq<char>) -> Seq<char>
    decreases s.len(),
{
    if s.len() > 0 && s[0] == '/' {
        trim_slashes(s.skip(1))
    } else {
        s
    }
}

/// The file name of the single-page application's entry point.
pub open spec fn index_name() -> Seq<char> {
    seq!['i', 'n', 'd', 'e', 'x', '.', 'h', 't', 'm', 'l']
}

/// What MIME type the extension of `path` names, `application/octet-stream`
/// when it names none.
pub uninterp spec fn mime_of(path: Seq<char>) -> Seq<char>;

/// Relies on `mime_guess::from_path(path).first_or_octet_stream()`: a guess
/// from the path's extension alone, made without reading any file.
#[verifier::external_body]
fn guess_mime(path: &str) -> (r: String)
    ensures
        r@ == mime_of(path@),
{
    mime_guess::from_path(path).first_or_octet_stream().to_string()
}

/// The answer to a request for a static file.
#[derive(Debug)]
pub enum StaticResponse {
    /// The index page, which lets the front end route on its own.
    Index,
    /// The embedded file of that path, with its content type.
    Asset { content_type: String },
    /// Not found.
    NotFound,
}

/// The index page answers a request for the (trimmed) `path`.
pub open spec fn serves_index(path: Seq<char>, asset_found: bool) -> bool {
    path.len() == 0 || path == index_name() || (!asset_found && !path.contains('.'))
}

/// The embedded file answers a request for `path`.
pub open spec fn serves_asset(path: Seq<char>, asset_found: bool) -> bool {
    !serves_index(path, asset_found) && asset_found
}

/// The path of the embedded file that `uri_path` asks for.
pub fn asset_path(uri_path: &str) -> (r: &str)
    ensures
        r@ == trim_slashes(uri_path@),
{
    let n = uri_path.unicode_len();
    let mut i: usize = 0;
    assert(uri_path@.skip(0) =~= uri_path@);
    while i < n && uri_path.get_char(i) == '/'
        invariant
            n == uri_path@.len(),
            i <= n,
            trim_slashes(uri_path@) == trim_slashes(uri_path@.skip(i as int)),
        decreases n - i,
    {
        assert(uri_path@.skip(i as int).skip(1) =~= uri_path@.skip(i + 1));
        i = i + 1;
    }
    assert(uri_path@.subrange(i as int, n as int) =~= uri_path@.skip(i as int));
    uri_path.substring_char(i, n)
}

fn is_index_name(path: &str) -> (r: bool)
    ensures
        r == (path@ == index_name()),
{
    let name = "index.html";
    proof {
        reveal_strlit("index.html");
    }
    assert(name@ =~= index_name());
    let n = name.unicode_len();
    if path.unicode_len() != n {
        return false;
    }
    let mut i: usize = 0;
    while i < n
        invariant
            n == name@.len(),
            name@ == index_name(),
            n == path@.len(),
            i <= n,
            forall|j: int| 0 <= j < i ==> path@[j] == name@[j],
        decreases n - i,
    {
        if path.get_char(i) != name.get_char(i) {
            assert(path@[i as int] != index_name()[i as int]);
            return false;
        }
        i = i + 1;
    }
    assert(path@ =~= name@);
    true
}

fn has_dot(path: &str) -> (r: bool)
    ensures
        r == path@.contains('.'),
{
    let n = path.unicode_len();
    let mut i: usize = 0;
    while i < n
        invariant
            n == path@.len(),
            i <= n,
            forall|j: int| 0 <= j < i ==> path@[j] != '.',
        decreases n - i,
    {
        if path.get_char(i) == '.' {
            return true;
        }
        i = i + 1;
    }
    false
}

/// What to serve for the (trimmed) `path`: the index page for the root, the
/// index page's own name and any path without a dot that no embedded file
/// has; the file itself with the content type its extension names; not
/// found for a missing path with a dot.
pub fn static_response(path: &str, asset_found: bool) -> (r: StaticResponse)
    ensures
        r is Index <==> serves_index(path@, asset_found),
        r is NotFound <==> !serves_index(path@, asset_found) && !serves_asset(path@, asset_found),
        match r {
            StaticResponse::Asset { content_type } => serves_asset(path@, asset_found)
                && content_type@ == mime_of(path@),
            _ => true,
        },
{
    if path.unicode_len() == 0 || is_index_name(path) {
        StaticResponse::Index
    } else if asset_found {
        StaticResponse::Asset { content_type: guess_mime(path) }
    } else if has_dot(path) {
        StaticResponse::NotFound
    } else {
        StaticResponse::Index
    }
}

fn push_all(out: &mut Vec<u8>, v: &Vec<u8>)
    ensures
        final(out)@ == old(out)@ + v@,
{
    let ghost start = out@;
    let mut i: usize = 0;
    while i < v.len()
        invariant
            i <= v@.len(),
            out@ == start + v@.take(i as int),
        decreases v@.len() - i,
    {
        out.push(v[i]);
        i = i + 1;
        assert(out@ =~= start + v@.take(i as int));
    }
    assert(v@.take(i as int) =~= v@);
}

/// `s` with each occurrence of `token`, from the left and without overlap,
/// replaced by `value`.
fn replace_bytes(s: &Vec<u8>, token: &Vec<u8>, value: &Vec<u8>) -> (r: Vec<u8>)
    requires
        token@.len() > 0,
    ensures
        r@ == replace_all(s@, token@, value@),
{
    let n = s.len();
    let t = token.len();
    let mut out: Vec<u8> = Vec::new();
    let mut i: usize = 0;
    assert(s@.skip(0) =~= s@);
    assert(out@ + replace_all(s@, token@, value@) =~= replace_all(s@, token@, value@));
    while i < n
        invariant
            n == s@.len(),
            t == token@.len(),
            t > 0,
            i <= n,
            out@ + replace_all(s@.skip(i as int), token@, value@) == replace_all(s@, token@, value@),
        decreases n - i,
    {
        let ghost rest = s@.skip(i as int);
        if n - i < t {
            assert(replace_all(rest, token@, value@) == rest);
            let mut j: usize = i;
            while j < n
                invariant
                    i <= j <= n,
                    n == s@.len(),
                    out@ + s@.skip(j as int) == replace_all(s@, token@, value@),
                decreases n - j,
            {
                let ghost before = out@;
                out.push(s[j]);
                assert(s@.skip(j as int) =~= seq![s@[j as int]] + s@.skip(j + 1));
                assert(out@ + s@.skip(j + 1) =~= before + s@.skip(j as int));
                j = j + 1;
            }
            assert(s@.skip(n as int) =~= Seq::<u8>::empty());
            assert(out@ =~= out@ + s@.skip(n as int));
            return out;
        }
        let mut matched = true;
        let mut k: usize = 0;
        while k < t
            invariant
                n == s@.len(),
                t == token@.len(),
                i + t <= n,
                k <= t,
                matched == forall|m: int| 0 <= m < k ==> s@[i + m] == token@[m],
            decreases t - k,
        {
            if s[i + k] != token[k] {
                matched = false;
            }
            k = k + 1;
        }
        assert(matched == (rest.take(t as int) == token@)) by {
            if matched {
                assert(rest.take(t as int) =~= token@);
            } else {
                let m = choose|m: int| 0 <= m < t && s@[i + m] != token@[m];
                assert(rest.take(t as int)[m] != token@[m]);
            }
        }
        if matched {
            let ghost before = out@;
            push_all(&mut out, value);
            assert(rest.skip(t as int) =~= s@.skip(i + t));
            assert(out@ + replace_all(s@.skip(i + t), token@, value@) =~= before + replace_all(rest, token@, value@));
            i = i + t;
        } else {
            let ghost before = out@;
            out.push(s[i]);
            assert(rest.skip(1) =~= s@.skip(i + 1));
            assert(out@ + replace_all(s@.skip(i + 1), token@, value@) =~= before + replace_all(rest, token@, value@));
            i = i + 1;
        }
    }
    assert(s@.skip(n as int) =~= Seq::<u8>::empty());
    assert(out@ + replace_all(s@.skip(n as int), token@, value@) =~= out@);
    out
}

/// The index page: `template` with the demo token replaced by the demo flag.
pub fn render_index(template: &Vec<u8>, is_demo: bool) -> (r: Vec<u8>)
    ensures
        r@ == replace_all(template@, demo_token(), bool_text(is_demo)),
{
    let token: Vec<u8> = vec![95u8, 95u8, 73u8, 83u8, 95u8, 68u8, 69u8, 77u8, 79u8, 95u8, 95u8];
    let value: Vec<u8> = if is_demo {
        vec![116u8, 114u8, 117u8, 101u8]
    } else {
        vec![102u8, 97u8, 108u8, 115u8, 101u8]
    };
    assert(token@ =~= demo_token());
    assert(value@ =~= bool_text(is_demo));
    replace_bytes(template, &token, &value)
}

} // verus!
