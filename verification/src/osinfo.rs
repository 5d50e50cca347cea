use crate::strutil::split_on;
use crate::strutil::split_on_exec;
use vstd::prelude::*;

verus! {

/// The platform the tool runs on; selected once at startup and handed in, so
/// the core stays a pure function of its inputs.
#[derive(Clone, Copy, Debug, PartialEq, Eq, Structural)]
pub enum Os {
    Linux,
    Windows,
    MacOS,
}

impl Os {
    /// The platform a `std::env::consts::OS`-style name denotes.
    pub fn from_name(name: &str) -> (r: Option<Os>)
        ensures
            match r {
                Some(o) => (o == Os::Linux && name@ == "linux"@) || (o == Os::Windows && name@
                    == "windows"@) || (o == Os::MacOS && name@ == "macos"@),
                None => name@ != "linux"@ && name@ != "windows"@ && name@ != "macos"@,
            },
    {
        let linux_lit = String::from_str("linux");
        let windows_lit = String::from_str("windows");
        let macos_lit = String::from_str("macos");
        let owned = name.to_owned();
        if owned.eq(&linux_lit) {
            Some(Os::Linux)
        } else if owned.eq(&windows_lit) {
            Some(Os::Windows)
        } else if owned.eq(&macos_lit) {
            Some(Os::MacOS)
        } else {
            None
        }
    }

    /// The shell this platform launches.
    pub fn get_shell(&self) -> (r: &'static str)
        ensures
            *self == Os::Windows ==> r@ == "cmd"@,
            *self != Os::Windows ==> r@ == "bash"@,
    {
        match self {
            Os::Linux => "bash",
            Os::MacOS => "bash",
            Os::Windows => "cmd",
        }
    }

    /// The editor command this platform launches.
    pub fn get_code(&self) -> (r: &'static str)
        ensures
            *self == Os::Windows ==> r@ == "code.cmd"@,
            *self != Os::Windows ==> r@ == "code"@,
    {
        match self {
            Os::Linux => "code",
            Os::MacOS => "code",
            Os::Windows => "code.cmd",
        }
    }

    /// How this platform spells the search-path variable.
    pub fn get_path(&self) -> (r: &'static str)
        ensures
            *self == Os::Windows ==> r@ == "Path"@,
            *self != Os::Windows ==> r@ == "PATH"@,
    {
        match self {
            Os::Linux => "PATH",
            Os::Windows => "Path",
            Os::MacOS => "PATH",
        }
    }

    /// The separator between entries of the search-path variable.
    pub fn path_separator(&self) -> (r: char)
        ensures
            r == sep_of(*self),
    {
        match self {
            Os::Windows => ';',
            _ => ':',
        }
    }
}

pub open spec fn sep_of(os: Os) -> char {
    if os == Os::Windows {
        ';'
    } else {
        ':'
    }
}

/// The pieces joined with the separator between them.
pub open spec fn joined(parts: Seq<Seq<char>>, sep: char) -> Seq<char>
    decreases parts.len(),
{
    if parts.len() == 0 {
        Seq::empty()
    } else if parts.len() == 1 {
        parts[0]
    } else {
        joined(parts.drop_last(), sep) + seq![sep] + parts.last()
    }
}

fn join_parts(parts: &Vec<String>, sep: char) -> (r: String)
    ensures
        r@ == joined(parts.deep_view(), sep),
{
    let n = parts.len();
    let mut out: Vec<char> = Vec::new();
    let mut i: usize = 0;
    while i < n
        invariant
            i <= n,
            n == parts@.len(),
            out@ == joined(parts.deep_view().subrange(0, i as int), sep),
        decreases n - i,
    {
        if i > 0 {
            out.push(sep);
        }
        crate::strutil::push_str_chars(&mut out, parts[i].as_str());
        proof {
            let dv = parts.deep_view();
            assert(dv.subrange(0, i + 1 as int).drop_last() =~= dv.subrange(0, i as int));
            assert(dv.subrange(0, i + 1 as int).last() == dv[i as int]);
        }
        i += 1;
    }
    proof {
        assert(parts.deep_view().subrange(0, n as int) =~= parts.deep_view());
    }
    crate::strutil::chars_to_string(&out)
}

/// The final search-path value: the resolved segments, in declaration order,
/// prepended to the entries of the inherited host value, joined with the
/// platform's separator.
pub fn final_path(segments: &Vec<String>, host_path: &Option<String>, os: &Os) -> (r: String)
    ensures
        r@ == joined(
            segments.deep_view() + match host_path {
                Some(h) => split_on(h@, sep_of(*os)),
                None => Seq::<Seq<char>>::empty(),
            },
            sep_of(*os),
        ),
{
    let sep = os.path_separator();
    let mut parts: Vec<String> = Vec::new();
    let n = segments.len();
    let mut i: usize = 0;
    while i < n
        invariant
            i <= n,
            n == segments@.len(),
            parts.deep_view() =~= segments.deep_view().subrange(0, i as int),
        decreases n - i,
    {
        let ghost before = parts.deep_view();
        parts.push(segments[i].clone());
        proof {
            assert(parts.deep_view() =~= before.push(segments.deep_view()[i as int]));
            assert(parts.deep_view() =~= segments.deep_view().subrange(0, i + 1 as int));
        }
        i += 1;
    }
    proof {
        assert(segments.deep_view().subrange(0, n as int) =~= segments.deep_view());
    }
    match host_path {
        Some(h) => {
            let mut host_parts = split_on_exec(h.as_str(), sep);
            let ghost left = parts.deep_view();
            let ghost right = host_parts.deep_view();
            parts.append(&mut host_parts);
            proof {
                assert(parts.deep_view() =~= left + right);
            }
        },
        None => {
            proof {
                assert(parts.deep_view() =~= segments.deep_view() + Seq::<Seq<char>>::empty());
            }
        },
    }
    join_parts(&parts, sep)
}

} // verus!
