//! Pipeline configuration: paths, durations and sequence lengths.

use vstd::prelude::*;
use vstd::string::{StrSliceExecFns, StringExecFns};

verus! {

/// The values a run of the pipeline is configured with.
pub struct Cli {
    /// Output path; when absent it is derived from the first image's name.
    pub output: Option<String>,
    /// Duration of a single animation frame, in milliseconds.
    pub frame_duration: u32,
    /// Number of interpolated frames.
    pub interp_len: usize,
    /// Number of repeated static frames between the interpolations.
    pub pause_len: u32,
    /// Whether to open the produced file afterwards.
    pub open_gif_after: bool,
    /// Path to the first endpoint image.
    pub img_human: String,
    /// Path to the second endpoint image.
    pub img_otter: String,
    /// Path to the correspondence point file.
    pub points_csv: String,
}

/// Index right after the last `/` of `s`, or 0 when there is none.
pub open spec fn stem_start(s: Seq<char>) -> int
    decreases s.len(),
{
    if s.len() == 0 {
        0
    } else if s.last() == '/' {
        s.len() as int
    } else {
        stem_start(s.drop_last())
    }
}

/// Where the extension begins in a file name: the index of the last `.`
/// that is not the first character, or the length when there is none.
pub open spec fn dot_cut(f: Seq<char>) -> int
    decreases f.len(),
{
    if f.len() <= 1 {
        f.len() as int
    } else if f.last() == '.' {
        f.len() - 1
    } else {
        let c = dot_cut(f.drop_last());
        if c == f.len() - 1 {
            f.len() as int
        } else {
            c
        }
    }
}

pub proof fn lemma_dot_cut_bounds(f: Seq<char>)
    ensures
        0 <= dot_cut(f) <= f.len(),
    decreases f.len(),
{
    if f.len() > 1 && f.last() != '.' {
        lemma_dot_cut_bounds(f.drop_last());
    }
}

/// The path with trailing `/` separators removed.
pub open spec fn strip_trail(s: Seq<char>) -> Seq<char>
    decreases s.len(),
{
    if s.len() > 0 && s.last() == '/' {
        strip_trail(s.drop_last())
    } else {
        s
    }
}

/// The base name of a path: trailing separators are ignored, then what
/// follows the last `/` is taken, with the extension after the last `.`
/// removed (a lone leading `.` is kept).
pub open spec fn stem_of(s: Seq<char>) -> Seq<char> {
    let t = strip_trail(s);
    let f = t.skip(stem_start(t));
    f.take(dot_cut(f))
}

impl Cli {
    /// The display duration of one pause, in milliseconds: the pause is
    /// `pause_len` repeated frames of `frame_duration` each.
    pub fn pause_duration(&self) -> (r: u32)
        requires
            self.frame_duration * self.pause_len <= u32::MAX,
        ensures
            r == self.frame_duration * self.pause_len,
    {
        self.frame_duration * self.pause_len
    }

    /// The display duration of one morph frame, in milliseconds.
    pub fn frame_duration(&self) -> (r: u32)
        ensures
            r == self.frame_duration,
    {
        self.frame_duration
    }

    /// The base name of the first endpoint image.
    pub fn name(&self) -> (r: String)
        ensures
            r@ == stem_of(self.img_human@),
    {
        let s: &str = self.img_human.as_str();
        let ghost sv = s@;
        let n: usize = s.unicode_len();
        proof {
            assert(sv.take(n as int) =~= sv);
        }

        // Ignore trailing separators.
        let mut end: usize = n;
        while end > 0 && s.get_char(end - 1) == '/'
            invariant
                sv == s@,
                n == sv.len(),
                0 <= end <= n,
                strip_trail(sv) == strip_trail(sv.take(end as int)),
            decreases end,
        {
            proof {
                assert(sv.take(end as int).last() == sv[end - 1]);
                assert(sv.take(end as int).drop_last() =~= sv.take(end - 1));
            }
            end -= 1;
        }
        let ghost tv = sv.take(end as int);
        proof {
            if end > 0 {
                assert(tv.last() == sv[end - 1]);
            }
            assert(strip_trail(tv) == tv);
            assert(strip_trail(sv) == tv);
            assert(tv.take(end as int) =~= tv);
        }

        // Find the character right after the last '/' of what is left.
        let mut start: usize = end;
        while start > 0 && s.get_char(start - 1) != '/'
            invariant
                sv == s@,
                n == sv.len(),
                0 <= start <= end <= n,
                tv == sv.take(end as int),
                stem_start(tv) == stem_start(tv.take(start as int)),
            decreases start,
        {
            proof {
                assert(tv.take(start as int).last() == tv[start - 1]);
                assert(tv[start - 1] == sv[start - 1]);
                assert(tv.take(start as int).drop_last() =~= tv.take(start - 1));
            }
            start -= 1;
        }
        proof {
            if start > 0 {
                assert(tv.take(start as int).last() == tv[start - 1]);
                assert(tv[start - 1] == sv[start - 1]);
                assert(stem_start(tv.take(start as int)) == start);
            } else {
                assert(tv.take(0) =~= Seq::<char>::empty());
            }
            assert(stem_start(tv) == start);
        }
        let ghost f = tv.skip(start as int);

        // Find where the extension begins, scanning the base name from its end.
        let mut j: usize = end;
        proof {
            assert(f.take(end - start) =~= f);
        }
        while j > 0 && j - 1 > start && s.get_char(j - 1) != '.'
            invariant
                sv == s@,
                n == sv.len(),
                start <= j <= end <= n,
                tv == sv.take(end as int),
                f == tv.skip(start as int),
                dot_cut(f) == ({
                    let c = dot_cut(f.take(j - start));
                    if c == j - start {
                        f.len() as int
                    } else {
                        c
                    }
                }),
            decreases j,
        {
            proof {
                assert(f.take(j - start).last() == f[j - start - 1]);
                assert(f[j - start - 1] == tv[j - 1]);
                assert(tv[j - 1] == sv[j - 1]);
                assert(f.take(j - start).drop_last() =~= f.take(j - 1 - start));
                lemma_dot_cut_bounds(f.take(j - 1 - start));
            }
            j -= 1;
        }
        let mut cut: usize = end;
        if j > 0 && j - 1 > start {
            // Stopped on a '.' that is not the base name's first character.
            cut = j - 1;
            proof {
                assert(f.take(j - start).last() == f[j - start - 1]);
                assert(f[j - start - 1] == tv[j - 1]);
                assert(tv[j - 1] == sv[j - 1]);
                assert(dot_cut(f.take(j - start)) == j - start - 1);
                assert(dot_cut(f) == cut - start);
            }
        } else {
            proof {
                assert(j - start <= 1);
                assert(dot_cut(f.take(j - start)) == j - start);
                assert(dot_cut(f) == f.len());
                assert(cut - start == f.len());
            }
        }
        proof {
            lemma_dot_cut_bounds(f);
            assert(f.take(dot_cut(f)) =~= sv.subrange(start as int, cut as int));
        }
        let stem: &str = s.substring_char(start, cut);
        String::from_str(stem)
    }

    /// The output path: the configured one, or `<base name>.gif`.
    pub fn output(&self) -> (r: String)
        ensures
            match self.output {
                Some(p) => r@ == p@,
                None => r@ == stem_of(self.img_human@) + ".gif"@,
            },
    {
        match &self.output {
            Some(p) => {
                let r = String::from_str(p.as_str());
                r
            },
            None => {
                let base = self.name();
                base.concat(".gif")
            },
        }
    }
}

} // verus!
