//! Which download script to run, and with what arguments.
use vstd::prelude::*;
use vstd::string::*;
use crate::text::same;

verus! {

/// A script to run and its arguments.
pub struct Fetch {
    pub script: String,
    pub args: Vec<String>,
}

/// What is missing to run a script.
#[derive(Clone, Copy, PartialEq, Eq, Structural, Debug)]
pub enum FetchError {
    NoUser,
    NoPass,
    NoWorks,
}

/// Where the permit archive is kept, and what of it to fetch.
pub struct Archive {
    pub dir: String,
    pub bucket: String,
    pub fetch_match: String,
}

/// The path of a script below the project's root.
pub open spec fn script_path(root: Seq<char>, f: Seq<char>) -> Seq<char> {
    root + "/scripts/"@ + f
}

/// The path of a script below the project's root.
pub fn script(root: &str, f: &str) -> (r: String)
    ensures
        r@ == script_path(root@, f@),
{
    let mut out = root.to_owned();
    out.append("/scripts/");
    out.append(f);
    out
}

/// The position of the first argument that is `name`.
pub open spec fn flag_at(args: Seq<Seq<char>>, name: Seq<char>, i: int) -> Option<int>
    decreases args.len() - i,
{
    if i < 0 || i >= args.len() {
        None
    } else if args[i] == name {
        Some(i)
    } else {
        flag_at(args, name, i + 1)
    }
}

/// The argument that follows the first `name`.
pub open spec fn flag_value(args: Seq<Seq<char>>, name: Seq<char>) -> Option<Seq<char>> {
    match flag_at(args, name, 0) {
        Some(i) => if i + 1 < args.len() {
            Some(args[i + 1])
        } else {
            None
        },
        None => None,
    }
}

/// Finds the argument that follows the first `name`.
pub fn flag(args: &Vec<String>, name: &str) -> (r: Option<String>)
    ensures
        r.deep_view() == flag_value(args.deep_view(), name@),
{
    let ghost a = args.deep_view();
    let mut i: usize = 0;
    while i < args.len()
        invariant
            i <= args.len(),
            a == args.deep_view(),
            flag_at(a, name@, 0) == flag_at(a, name@, i as int),
        decreases args.len() - i,
    {
        assert(a[i as int] == args@[i as int]@);
        if same(args[i].as_str(), name) {
            if i < args.len() - 1 {
                assert(a[i + 1] == args@[i + 1]@);
                return Some(args[i + 1].clone());
            }
            return None;
        }
        i += 1;
    }
    None
}

pub open spec fn or<A>(a: Option<A>, b: Option<A>) -> Option<A> {
    match a {
        Some(_) => a,
        None => b,
    }
}

/// What to run for a command: the script's name and its arguments, or what is missing.
pub open spec fn planned(
    cmd: Seq<char>,
    args: Seq<Seq<char>>,
    zip: Option<Seq<char>>,
    works: Option<(Seq<char>, Seq<char>, Seq<char>)>,
    user: Option<Seq<char>>,
    pass: Option<Seq<char>>,
) -> Result<(Seq<char>, Seq<Seq<char>>), FetchError> {
    if cmd == "fetch-maps"@ {
        let u = or(flag_value(args, "-u"@), user);
        let p = or(flag_value(args, "-p"@), pass);
        let out = or(or(flag_value(args, "-o"@), zip), Some("data/maps-viewer.zip"@));
        if u is None {
            Err(FetchError::NoUser)
        } else if p is None {
            Err(FetchError::NoPass)
        } else {
            Ok(("fetch-maps.sh"@, seq![out->0, u->0, p->0]))
        }
    } else {
        match works {
            None => Err(FetchError::NoWorks),
            Some((dir, bucket, fetch_match)) => Ok(
                ("fetch-works.sh"@, seq![dir, bucket, fetch_match]),
            ),
        }
    }
}

pub open spec fn archive_view(w: Option<Archive>) -> Option<(Seq<char>, Seq<char>, Seq<char>)> {
    match w {
        Some(w) => Some((w.dir@, w.bucket@, w.fetch_match@)),
        None => None,
    }
}

fn or_else(a: Option<String>, b: Option<String>) -> (r: Option<String>)
    ensures
        r.deep_view() == or(a.deep_view(), b.deep_view()),
{
    match a {
        Some(x) => Some(x),
        None => b,
    }
}

/// Decides what to run: the maps bundle with credentials from the arguments or else from
/// the environment, or the permit archive.
pub fn run(
    root: &str,
    cmd: &str,
    args: &Vec<String>,
    zip: Option<String>,
    works: Option<Archive>,
    user: Option<String>,
    pass: Option<String>,
) -> (r: Result<Fetch, FetchError>)
    ensures
        match planned(
            cmd@,
            args.deep_view(),
            zip.deep_view(),
            archive_view(works),
            user.deep_view(),
            pass.deep_view(),
        ) {
            Ok((f, a)) => r matches Ok(x) && x.script@ == script_path(root@, f) && x.args.deep_view()
                == a,
            Err(e) => r == Err::<Fetch, FetchError>(e),
        },
{
    let mut out: Vec<String> = Vec::new();
    if same(cmd, "fetch-maps") {
        let u = match or_else(flag(args, "-u"), user) {
            Some(u) => u,
            None => {
                return Err(FetchError::NoUser);
            },
        };
        let p = match or_else(flag(args, "-p"), pass) {
            Some(p) => p,
            None => {
                return Err(FetchError::NoPass);
            },
        };
        let o = match or_else(flag(args, "-o"), zip) {
            Some(o) => o,
            None => "data/maps-viewer.zip".to_owned(),
        };
        let ghost v = seq![o@, u@, p@];
        out.push(o);
        out.push(u);
        out.push(p);
        assert(out.deep_view() =~= v);
        Ok(Fetch { script: script(root, "fetch-maps.sh"), args: out })
    } else {
        match works {
            None => Err(FetchError::NoWorks),
            Some(w) => {
                let ghost v = seq![w.dir@, w.bucket@, w.fetch_match@];
                out.push(w.dir);
                out.push(w.bucket);
                out.push(w.fetch_match);
                assert(out.deep_view() =~= v);
                Ok(Fetch { script: script(root, "fetch-works.sh"), args: out })
            },
        }
    }
}

/// A flag's value is the argument behind the first one that is the flag; where nothing follows
/// it, or no argument is the flag, there is none.
pub proof fn law_flag_value_follows_the_flag(args: Seq<Seq<char>>, name: Seq<char>, i: int)
    requires
        0 <= i < args.len(),
        args[i] == name,
        forall|j: int| 0 <= j < i ==> #[trigger] args[j] != name,
    ensures
        i + 1 < args.len() ==> flag_value(args, name) == Some(args[i + 1]),
        i + 1 == args.len() ==> flag_value(args, name) is None,
{
    lemma_flag_at(args, name, 0, i);
}

proof fn lemma_flag_at(args: Seq<Seq<char>>, name: Seq<char>, k: int, i: int)
    requires
        0 <= k <= i <= args.len(),
        i < args.len() ==> args[i] == name,
        forall|j: int| k <= j < i ==> #[trigger] args[j] != name,
    ensures
        flag_at(args, name, k) == (if i < args.len() {
            Some(i)
        } else {
            None
        }),
    decreases i - k,
{
    if k < i {
        assert(args[k] != name);
        lemma_flag_at(args, name, k + 1, i);
    }
}

/// The flags `-u`, `-p` and `-o` go before what the surroundings say of the user, the password
/// and the file, and the file has a default. The script gets the file, the user and the password
/// in this order.
pub proof fn law_flags_go_first(
    args: Seq<Seq<char>>,
    zip: Option<Seq<char>>,
    works: Option<(Seq<char>, Seq<char>, Seq<char>)>,
    user: Option<Seq<char>>,
    pass: Option<Seq<char>>,
)
    ensures
        ({
            let r = planned("fetch-maps"@, args, zip, works, user, pass);
            let (u, p, o) = (
                flag_value(args, "-u"@),
                flag_value(args, "-p"@),
                flag_value(args, "-o"@),
            );
            &&& u is None && user is None ==> r == Err::<
                (Seq<char>, Seq<Seq<char>>),
                FetchError,
            >(FetchError::NoUser)
            &&& (u is Some || user is Some) && p is None && pass is None ==> r == Err::<
                (Seq<char>, Seq<Seq<char>>),
                FetchError,
            >(FetchError::NoPass)
            &&& (u is Some || user is Some) && (p is Some || pass is Some) ==> {
                &&& r is Ok
                &&& (r->Ok_0).0 == "fetch-maps.sh"@
                &&& (r->Ok_0).1.len() == 3
                &&& o is Some ==> Some((r->Ok_0).1[0]) == o
                &&& o is None && zip is Some ==> Some((r->Ok_0).1[0]) == zip
                &&& o is None && zip is None ==> (r->Ok_0).1[0] == "data/maps-viewer.zip"@
                &&& u is Some ==> Some((r->Ok_0).1[1]) == u
                &&& u is None ==> Some((r->Ok_0).1[1]) == user
                &&& p is Some ==> Some((r->Ok_0).1[2]) == p
                &&& p is None ==> Some((r->Ok_0).1[2]) == pass
            }
        }),
{
}

/// Any other command fetches the archive of permits, for which the script gets the directory, the
/// bucket and what to match in this order; the settings for it must be there.
pub proof fn law_archive_is_fetched_as_configured(
    cmd: Seq<char>,
    args: Seq<Seq<char>>,
    zip: Option<Seq<char>>,
    w: Archive,
    user: Option<Seq<char>>,
    pass: Option<Seq<char>>,
)
    requires
        cmd != "fetch-maps"@,
    ensures
        planned(cmd, args, zip, archive_view(Some(w)), user, pass) == Ok::<
            (Seq<char>, Seq<Seq<char>>),
            FetchError,
        >(("fetch-works.sh"@, seq![w.dir@, w.bucket@, w.fetch_match@])),
        planned(cmd, args, zip, archive_view(None), user, pass) == Err::<
            (Seq<char>, Seq<Seq<char>>),
            FetchError,
        >(FetchError::NoWorks),
{
}

/// A script lies in the directory of scripts below the root.
pub proof fn law_scripts_lie_below_the_root(root: Seq<char>, f: Seq<char>)
    ensures
        ({
            let s = script_path(root, f);
            let n = root.len() as int;
            &&& s.len() == n + 9 + f.len()
            &&& s.subrange(0, n) == root
            &&& s.subrange(n, n + 9) == "/scripts/"@
            &&& s.skip(n + 9) == f
        }),
{
    reveal_strlit("/scripts/");
    let s = script_path(root, f);
    let n = root.len() as int;
    assert(s.subrange(0, n) =~= root);
    assert(s.subrange(n, n + 9) =~= "/scripts/"@);
    assert(s.skip(n + 9) =~= f);
}

} // verus!
