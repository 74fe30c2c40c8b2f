//! Recognition of image files by their extension.

use vstd::prelude::*;
use crate::utils::text::chars_of;

verus! {

/// The lowercase form of an ASCII letter; any other character unchanged.
pub open spec fn ascii_lower(c: char) -> char {
    if 'A' <= c && c <= 'Z' {
        ((c as u8) + 32) as char
    } else {
        c
    }
}

/// A text with its ASCII letters in lowercase.
pub open spec fn lowercase(s: Seq<char>) -> Seq<char> {
    Seq::new(s.len(), |i: int| ascii_lower(s[i]))
}

/// True if `ext`, taken without regard to case, is the extension of a
/// supported image format.
pub open spec fn is_supported(ext: Seq<char>) -> bool {
    let e = lowercase(ext);
    e == seq!['j', 'p', 'g'] || e == seq!['j', 'p', 'e', 'g'] || e == seq!['p', 'n', 'g'] || e
        == seq!['g', 'i', 'f'] || e == seq!['w', 'e', 'b', 'p'] || e == seq!['b', 'm', 'p'] || e
        == seq!['t', 'i', 'f', 'f']
}

/// Returns the lowercase form of an ASCII letter.
fn lower(c: char) -> (l: char)
    ensures
        l == ascii_lower(c),
{
    if 'A' <= c && c <= 'Z' {
        ((c as u8) + 32) as char
    } else {
        c
    }
}

/// Tells whether `ext` is `jpg`, `jpeg`, `png`, `gif`, `webp`, `bmp` or
/// `tiff`, in any mixture of upper and lower case.
pub fn is_supported_extension(ext: &str) -> (supported: bool)
    ensures
        supported == is_supported(ext@),
{
    let chars = chars_of(ext);
    let mut e: Vec<char> = Vec::new();
    let mut i: usize = 0;
    while i < chars.len()
        invariant
            i <= chars@.len(),
            chars@ == ext@,
            e@.len() == i,
            forall|j: int| 0 <= j < i ==> e@[j] == ascii_lower(ext@[j]),
        decreases chars@.len() - i,
    {
        e.push(lower(chars[i]));
        i += 1;
    }
    assert(e@ =~= lowercase(ext@));
    let n = e.len();
    let supported = if n == 3 {
        (e[0] == 'j' && e[1] == 'p' && e[2] == 'g') || (e[0] == 'p' && e[1] == 'n' && e[2] == 'g')
            || (e[0] == 'g' && e[1] == 'i' && e[2] == 'f') || (e[0] == 'b' && e[1] == 'm' && e[2]
            == 'p')
    } else if n == 4 {
        (e[0] == 'j' && e[1] == 'p' && e[2] == 'e' && e[3] == 'g') || (e[0] == 'w' && e[1] == 'e'
            && e[2] == 'b' && e[3] == 'p') || (e[0] == 't' && e[1] == 'i' && e[2] == 'f' && e[3]
            == 'f')
    } else {
        false
    };
    proof {
        let l = lowercase(ext@);
        if n == 3 {
            assert(l == seq!['j', 'p', 'g'] <==> (l[0] == 'j' && l[1] == 'p' && l[2] == 'g')) by {
                if l[0] == 'j' && l[1] == 'p' && l[2] == 'g' {
                    assert(l =~= seq!['j', 'p', 'g']);
                }
            }
            assert(l == seq!['p', 'n', 'g'] <==> (l[0] == 'p' && l[1] == 'n' && l[2] == 'g')) by {
                if l[0] == 'p' && l[1] == 'n' && l[2] == 'g' {
                    assert(l =~= seq!['p', 'n', 'g']);
                }
            }
            assert(l == seq!['g', 'i', 'f'] <==> (l[0] == 'g' && l[1] == 'i' && l[2] == 'f')) by {
                if l[0] == 'g' && l[1] == 'i' && l[2] == 'f' {
                    assert(l =~= seq!['g', 'i', 'f']);
                }
            }
            assert(l == seq!['b', 'm', 'p'] <==> (l[0] == 'b' && l[1] == 'm' && l[2] == 'p')) by {
                if l[0] == 'b' && l[1] == 'm' && l[2] == 'p' {
                    assert(l =~= seq!['b', 'm', 'p']);
                }
            }
            assert(seq!['j', 'p', 'e', 'g'].len() == 4 && seq!['w', 'e', 'b', 'p'].len() == 4
                && seq!['t', 'i', 'f', 'f'].len() == 4);
        } else if n == 4 {
            assert(l == seq!['j', 'p', 'e', 'g'] <==> (l[0] == 'j' && l[1] == 'p' && l[2] == 'e'
                && l[3] == 'g')) by {
                if l[0] == 'j' && l[1] == 'p' && l[2] == 'e' && l[3] == 'g' {
                    assert(l =~= seq!['j', 'p', 'e', 'g']);
                }
            }
            assert(l == seq!['w', 'e', 'b', 'p'] <==> (l[0] == 'w' && l[1] == 'e' && l[2] == 'b'
                && l[3] == 'p')) by {
                if l[0] == 'w' && l[1] == 'e' && l[2] == 'b' && l[3] == 'p' {
                    assert(l =~= seq!['w', 'e', 'b', 'p']);
                }
            }
            assert(l == seq!['t', 'i', 'f', 'f'] <==> (l[0] == 't' && l[1] == 'i' && l[2] == 'f'
                && l[3] == 'f')) by {
                if l[0] == 't' && l[1] == 'i' && l[2] == 'f' && l[3] == 'f' {
                    assert(l =~= seq!['t', 'i', 'f', 'f']);
                }
            }
            assert(seq!['j', 'p', 'g'].len() == 3 && seq!['p', 'n', 'g'].len() == 3 && seq![
                'g',
                'i',
                'f',
            ].len() == 3 && seq!['b', 'm', 'p'].len() == 3);
        } else {
            assert(seq!['j', 'p', 'g'].len() == 3 && seq!['p', 'n', 'g'].len() == 3 && seq![
                'g',
                'i',
                'f',
            ].len() == 3 && seq!['b', 'm', 'p'].len() == 3);
            assert(seq!['j', 'p', 'e', 'g'].len() == 4 && seq!['w', 'e', 'b', 'p'].len() == 4
                && seq!['t', 'i', 'f', 'f'].len() == 4);
        }
    }
    supported
}

/// True if `ext` stands in `path` directly after a dot and holds no dot
/// itself, as the part of a file name after its last dot does.
pub open spec fn names_extension(path: Seq<char>, ext: Seq<char>) -> bool {
    !ext.contains('.') && exists|i: int|
        0 <= i && i + 1 + ext.len() <= path.len() && #[trigger] path[i] == '.'
            && path.subrange(i + 1, i + 1 + ext.len()) == ext
}

/// Tells whether a path names an image file: whether the extension that the
/// platform finds in it is one that `is_supported_extension` accepts. For a
/// bare file name the answer is that of `plain_extension`; which part of a
/// longer path is its file name depends on the platform, and of such a path
/// only this holds: an image file has a dot followed by a supported extension.
pub fn is_image_file(path: &str) -> (image: bool)
    ensures
        is_plain_name(path@) ==> image == (plain_extension(path@) is Some && is_supported(
            plain_extension(path@)->0,
        )),
        image ==> exists|ext: Seq<char>| #[trigger] names_extension(path@, ext) && is_supported(ext),
        !path@.contains('.') ==> !image,
{
    match extension_of(path) {
        Some(ext) => {
            let image = is_supported_extension(ext.as_str());
            proof {
                let i = choose|i: int|
                    0 <= i && i + 1 + ext@.len() <= path@.len() && #[trigger] path@[i] == '.'
                        && path@.subrange(i + 1, i + 1 + ext@.len()) == ext@;
                assert(path@.contains('.'));
            }
            image
        },
        None => false,
    }
}

/// Returns the extension of a path as text, if it has one that is valid
/// Unicode.
///
/// Wraps `std::path::Path::extension`, which returns the part of the file
/// name, the last component of the path, after its last dot, and nothing for
/// a path without a file name or for a file name whose only dot comes first.
/// So an extension holds no dot and stands in the path directly after one,
/// and a path that is a bare file name, with no separator or colon in it and
/// other than `..`, has the extension that `plain_extension` gives. Which
/// component of a longer path is the last depends on the platform's
/// separators, so no more is claimed. This contract is assumed, not proved.
#[verifier::external_body]
fn extension_of(path: &str) -> (ext: Option<String>)
    ensures
        ext is Some ==> names_extension(path@, ext->0@),
        is_plain_name(path@) ==> match plain_extension(path@) {
            Some(expected) => ext is Some && ext->0@ == expected,
            None => ext is None,
        },
{
    std::path::Path::new(path).extension().and_then(|e| e.to_str()).map(|e| e.to_string())
}

/// True if a path is a bare file name on every platform: it holds no
/// slash, backslash or colon, and is not `..`.
pub open spec fn is_plain_name(path: Seq<char>) -> bool {
    !path.contains('/') && !path.contains('\\') && !path.contains(':') && path != seq!['.', '.']
}

/// The position of the last dot among the first `n` characters, or -1 if
/// there is none.
pub open spec fn last_dot(path: Seq<char>, n: nat) -> int
    decreases n,
{
    if n == 0 {
        -1
    } else if path[n - 1] == '.' {
        n - 1
    } else {
        last_dot(path, (n - 1) as nat)
    }
}

/// The extension of a bare file name: what follows its last dot, unless it
/// has no dot or its only dot comes first.
pub open spec fn plain_extension(path: Seq<char>) -> Option<Seq<char>> {
    let dot = last_dot(path, path.len());
    if dot <= 0 {
        None
    } else {
        Some(path.subrange(dot + 1, path.len() as int))
    }
}

} // verus!
