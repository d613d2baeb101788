//! Which files are videos to split.
use vstd::prelude::*;

verus! {

pub open spec fn video_extensions() -> Set<Seq<char>> {
    set![seq!['m', 'p', '4'], seq!['w', 'e', 'b', 'm']]
}

fn chars_equal(s: &str, t: &str) -> (r: bool)
    ensures
        r == (s@ == t@),
{
    let n = s.unicode_len();
    if n != t.unicode_len() {
        return false;
    }
    let mut i: usize = 0;
    while i < n
        invariant
            i <= n == s@.len() == t@.len(),
            forall|k: int| 0 <= k < i ==> s@[k] == t@[k],
        decreases n - i,
    {
        if s.get_char(i) != t.get_char(i) {
            return false;
        }
        i = i + 1;
    }
    assert(s@ =~= t@);
    true
}

/// Whether a file with this extension is a video to split: exactly `mp4` or
/// `webm`, letter case included.
pub fn is_video_extension(ext: &str) -> (r: bool)
    ensures
        r == video_extensions().contains(ext@),
{
    proof {
        reveal_strlit("mp4");
        reveal_strlit("webm");
    }
    let r = chars_equal(ext, "mp4") || chars_equal(ext, "webm");
    assert("mp4"@ =~= seq!['m', 'p', '4']);
    assert("webm"@ =~= seq!['w', 'e', 'b', 'm']);
    r
}

} // verus!
