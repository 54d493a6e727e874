//! Audio and video container formats, told apart by file extension.
use vstd::prelude::*;
use vstd::string::StrSliceExecFns;

verus! {

/// Supported audio and video formats.
#[derive(Clone, Copy, Debug, PartialEq, Eq, Structural)]
pub enum AudioFormat {
    Wav,
    Mp3,
    Flac,
    Ogg,
    Mp4,
    Mkv,
    Avi,
    MpegTs,
    Mov,
    Webm,
    Unknown,
}

/// The last character of `s` is a trailing separator, or the `.` of a
/// trailing current-directory component.
pub open spec fn ends_in_separator(s: Seq<char>) -> bool {
    s.len() > 1 && (s.last() == '/' || (s.last() == '.' && s[s.len() - 2] == '/'))
}

/// The end of `s` once trailing separators and current-directory
/// components are dropped.
pub open spec fn trimmed_end(s: Seq<char>) -> int
    decreases s.len(),
{
    if ends_in_separator(s) {
        trimmed_end(s.drop_last())
    } else {
        s.len() as int
    }
}

/// The last index below `end` that holds `c`, or -1.
pub open spec fn last_before(s: Seq<char>, end: int, c: char) -> int
    decreases end,
{
    if end <= 0 {
        -1
    } else if s[end - 1] == c {
        end - 1
    } else {
        last_before(s, end - 1, c)
    }
}

/// The extension of a path: what follows the last '.' of its last
/// component, where that dot is not the component's first character and
/// the component is not "..".
pub open spec fn extension(s: Seq<char>) -> Option<Seq<char>> {
    let end = trimmed_end(s);
    let name_start = last_before(s, end, '/') + 1;
    let dot = last_before(s, end, '.');
    if dot <= name_start || s.subrange(name_start, end) == ".."@ {
        None
    } else {
        Some(s.subrange(dot + 1, end))
    }
}

/// The format an extension names.
pub open spec fn format_of(ext: Option<Seq<char>>) -> AudioFormat {
    match ext {
        Some(e) => if e == "wav"@ || e == "wave"@ {
            AudioFormat::Wav
        } else if e == "mp3"@ {
            AudioFormat::Mp3
        } else if e == "flac"@ {
            AudioFormat::Flac
        } else if e == "ogg"@ {
            AudioFormat::Ogg
        } else if e == "mp4"@ || e == "m4a"@ || e == "m4v"@ {
            AudioFormat::Mp4
        } else if e == "mkv"@ {
            AudioFormat::Mkv
        } else if e == "avi"@ {
            AudioFormat::Avi
        } else if e == "ts"@ || e == "mts"@ || e == "m2ts"@ {
            AudioFormat::MpegTs
        } else if e == "mov"@ {
            AudioFormat::Mov
        } else if e == "webm"@ {
            AudioFormat::Webm
        } else {
            AudioFormat::Unknown
        },
        None => AudioFormat::Unknown,
    }
}

/// `s[from..to]` spells `lit`.
fn spells(s: &str, from: usize, to: usize, lit: &str) -> (r: bool)
    requires
        from <= to <= s@.len(),
    ensures
        r == (s@.subrange(from as int, to as int) == lit@),
{
    let n = lit.unicode_len();
    if to - from != n {
        return false;
    }
    let mut i: usize = 0;
    while i < n
        invariant
            from <= to <= s@.len(),
            to - from == n == lit@.len(),
            i <= n,
            forall|k: int| 0 <= k < i ==> s@[from + k] == lit@[k],
        decreases n - i,
    {
        if s.get_char(from + i) != lit.get_char(i) {
            assert(s@.subrange(from as int, to as int)[i as int] != lit@[i as int]);
            return false;
        }
        i += 1;
    }
    assert(s@.subrange(from as int, to as int) =~= lit@);
    true
}

/// `path[..end]` ends in a separator or a current-directory component.
fn trailing_separator(path: &str, end: usize) -> (r: bool)
    requires
        end <= path@.len(),
    ensures
        r == ends_in_separator(path@.subrange(0, end as int)),
{
    let ghost t = path@.subrange(0, end as int);
    if end <= 1 {
        return false;
    }
    let c = path.get_char(end - 1);
    assert(t.last() == path@[end - 1]);
    assert(t[t.len() - 2] == path@[end - 2]);
    c == '/' || (c == '.' && path.get_char(end - 2) == '/')
}

impl AudioFormat {
    /// The format named by the extension of `path`.
    pub fn from_path(path: &str) -> (r: AudioFormat)
        ensures
            r == format_of(extension(path@)),
    {
        let ghost s = path@;
        let len = path.unicode_len();
        let mut end = len;
        assert(s.subrange(0, len as int) =~= s);
        while trailing_separator(path, end)
            invariant
                end <= len == s.len(),
                s == path@,
                trimmed_end(s.subrange(0, end as int)) == trimmed_end(s),
            decreases end,
        {
            assert(s.subrange(0, end as int).drop_last() =~= s.subrange(0, end - 1));
            end -= 1;
        }
        assert(trimmed_end(s.subrange(0, end as int)) == end);
        let mut slash: usize = end;
        while slash > 0 && path.get_char(slash - 1) != '/'
            invariant
                slash <= end <= s.len(),
                s == path@,
                last_before(s, slash as int, '/') == last_before(s, end as int, '/'),
            decreases slash,
        {
            slash -= 1;
        }
        let name_start = slash;
        let mut dot: usize = end;
        while dot > 0 && path.get_char(dot - 1) != '.'
            invariant
                dot <= end <= s.len(),
                s == path@,
                last_before(s, dot as int, '.') == last_before(s, end as int, '.'),
            decreases dot,
        {
            dot -= 1;
        }
        if dot <= name_start + 1 || spells(path, name_start, end, "..") {
            return AudioFormat::Unknown;
        }
        let from = dot;
        if spells(path, from, end, "wav") || spells(path, from, end, "wave") {
            AudioFormat::Wav
        } else if spells(path, from, end, "mp3") {
            AudioFormat::Mp3
        } else if spells(path, from, end, "flac") {
            AudioFormat::Flac
        } else if spells(path, from, end, "ogg") {
            AudioFormat::Ogg
        } else if spells(path, from, end, "mp4") || spells(path, from, end, "m4a") || spells(
            path,
            from,
            end,
            "m4v",
        ) {
            AudioFormat::Mp4
        } else if spells(path, from, end, "mkv") {
            AudioFormat::Mkv
        } else if spells(path, from, end, "avi") {
            AudioFormat::Avi
        } else if spells(path, from, end, "ts") || spells(path, from, end, "mts") || spells(
            path,
            from,
            end,
            "m2ts",
        ) {
            AudioFormat::MpegTs
        } else if spells(path, from, end, "mov") {
            AudioFormat::Mov
        } else if spells(path, from, end, "webm") {
            AudioFormat::Webm
        } else {
            AudioFormat::Unknown
        }
    }

    /// The format is a video container, from which audio is extracted.
    pub open spec fn video(self) -> bool {
        match self {
            AudioFormat::Mp4 | AudioFormat::Mkv | AudioFormat::Avi | AudioFormat::MpegTs
            | AudioFormat::Mov | AudioFormat::Webm => true,
            _ => false,
        }
    }

    pub fn is_video_container(&self) -> (r: bool)
        ensures
            r == self.video(),
    {
        match self {
            AudioFormat::Mp4 | AudioFormat::Mkv | AudioFormat::Avi | AudioFormat::MpegTs
            | AudioFormat::Mov | AudioFormat::Webm => true,
            _ => false,
        }
    }
}

} // verus!
