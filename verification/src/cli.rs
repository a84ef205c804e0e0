//! The command line: its arguments, and the files that they stand for.

use vstd::prelude::*;
use crate::formats::{is_supported, is_supported_input_path};
use crate::text::{chars_of, number_of, parse_number, text_equal, texts_of};

verus! {

/// Why a command line is refused.
pub enum ArgError {
    /// No file follows `--csv`.
    MissingCsvPath,
    /// No number follows `--timeout`.
    MissingTimeout,
    /// What follows `--timeout` is no number of seconds.
    InvalidTimeout(String),
    /// There is nothing to scan.
    NoInputs,
}

/// What a command line asks for.
pub enum Request {
    /// To scan files and directories, to write a table where a file is given for it, and to
    /// spend that many seconds on a file at most.
    Scan { inputs: Vec<String>, csv_output: Option<String>, timeout_secs: u64 },
    /// To show how the program is used.
    Help,
    /// Nothing that can be done.
    Refused(ArgError),
}

/// What a [`Request`] says.
pub enum Asked {
    Scan { inputs: Seq<Seq<char>>, csv_output: Option<Seq<char>>, timeout_secs: u64 },
    Help,
    MissingCsvPath,
    MissingTimeout,
    InvalidTimeout(Seq<char>),
    NoInputs,
}

impl View for Request {
    type V = Asked;

    open spec fn view(&self) -> Asked {
        match self {
            Request::Scan { inputs, csv_output, timeout_secs } => Asked::Scan {
                inputs: texts_of(inputs@),
                csv_output: match csv_output {
                    Some(path) => Some(path@),
                    None => None,
                },
                timeout_secs: *timeout_secs,
            },
            Request::Help => Asked::Help,
            Request::Refused(ArgError::MissingCsvPath) => Asked::MissingCsvPath,
            Request::Refused(ArgError::MissingTimeout) => Asked::MissingTimeout,
            Request::Refused(ArgError::InvalidTimeout(text)) => Asked::InvalidTimeout(text@),
            Request::Refused(ArgError::NoInputs) => Asked::NoInputs,
        }
    }
}

/// What the arguments from place `i` on ask for, after those before it.
pub open spec fn asked_from(
    args: Seq<Seq<char>>,
    i: int,
    inputs: Seq<Seq<char>>,
    csv_output: Option<Seq<char>>,
    timeout_secs: u64,
) -> Asked
    decreases args.len() - i,
{
    if i < 0 || i >= args.len() {
        if inputs.len() == 0 {
            Asked::NoInputs
        } else {
            Asked::Scan { inputs, csv_output, timeout_secs }
        }
    } else if args[i] == "--csv"@ {
        if i + 1 >= args.len() {
            Asked::MissingCsvPath
        } else {
            asked_from(args, i + 2, inputs, Some(args[i + 1]), timeout_secs)
        }
    } else if args[i] == "--timeout"@ || args[i] == "-t"@ {
        if i + 1 >= args.len() {
            Asked::MissingTimeout
        } else {
            match number_of(args[i + 1], u64::MAX as nat) {
                Some(n) => asked_from(args, i + 2, inputs, csv_output, if n < 1 { 1 } else { n as u64 }),
                None => Asked::InvalidTimeout(args[i + 1]),
            }
        }
    } else if args[i] == "-h"@ || args[i] == "--help"@ {
        Asked::Help
    } else {
        asked_from(args, i + 1, inputs.push(args[i]), csv_output, timeout_secs)
    }
}

/// What a command line asks for. A file is given 5 seconds, unless it says otherwise.
pub open spec fn asked(args: Seq<Seq<char>>) -> Asked {
    asked_from(args, 0, Seq::empty(), None, 5)
}

/// What a command line asks for, without the name of the program.
pub fn parse_args(args: &Vec<String>) -> (r: Request)
    ensures
        r@ == asked(texts_of(args@)),
{
    let ghost all = texts_of(args@);
    let mut inputs: Vec<String> = Vec::new();
    let mut csv_output: Option<String> = None;
    let mut timeout_secs: u64 = 5;
    let mut i: usize = 0;
    assert(texts_of(inputs@) =~= Seq::<Seq<char>>::empty());
    while i < args.len()
        invariant
            all == texts_of(args@),
            i <= args@.len(),
            asked(all) == asked_from(
                all,
                i as int,
                texts_of(inputs@),
                match csv_output {
                    Some(path) => Some(path@),
                    None => None,
                },
                timeout_secs,
            ),
        decreases args@.len() - i,
    {
        let arg: &str = args[i].as_str();
        assert(arg@ == all[i as int]);
        if text_equal(arg, "--csv") {
            if i + 1 >= args.len() {
                return Request::Refused(ArgError::MissingCsvPath);
            }
            csv_output = Some(args[i + 1].clone());
            i = i + 2;
        } else if text_equal(arg, "--timeout") || text_equal(arg, "-t") {
            if i + 1 >= args.len() {
                return Request::Refused(ArgError::MissingTimeout);
            }
            let value: Vec<char> = chars_of(args[i + 1].as_str());
            match parse_number(&value, u64::MAX) {
                Some(n) => {
                    timeout_secs = if n < 1 { 1 } else { n };
                },
                None => {
                    return Request::Refused(ArgError::InvalidTimeout(args[i + 1].clone()));
                },
            }
            i = i + 2;
        } else if text_equal(arg, "-h") || text_equal(arg, "--help") {
            return Request::Help;
        } else {
            let ghost before = texts_of(inputs@);
            inputs.push(args[i].clone());
            assert(texts_of(inputs@) =~= before.push(all[i as int]));
            i = i + 1;
        }
    }
    if inputs.len() == 0 {
        return Request::Refused(ArgError::NoInputs);
    }
    Request::Scan { inputs, csv_output, timeout_secs }
}

/// Whatever a command line asks to scan, each file is given at least one second.
pub proof fn law_timeout(args: Seq<Seq<char>>)
    ensures
        asked(args) matches Asked::Scan { timeout_secs, .. } ==> timeout_secs >= 1,
        asked(args) matches Asked::Scan { inputs, .. } ==> inputs.len() > 0,
{
    lemma_timeout(args, 0, Seq::empty(), None, 5);
}

proof fn lemma_timeout(
    args: Seq<Seq<char>>,
    i: int,
    inputs: Seq<Seq<char>>,
    csv_output: Option<Seq<char>>,
    timeout_secs: u64,
)
    requires
        timeout_secs >= 1,
    ensures
        asked_from(args, i, inputs, csv_output, timeout_secs) matches Asked::Scan { timeout_secs: t, inputs: l, .. }
            ==> t >= 1 && l.len() > 0,
    decreases args.len() - i,
{
    if 0 <= i < args.len() {
        if args[i] == "--csv"@ {
            if i + 1 < args.len() {
                lemma_timeout(args, i + 2, inputs, Some(args[i + 1]), timeout_secs);
            }
        } else if args[i] == "--timeout"@ || args[i] == "-t"@ {
            if i + 1 < args.len() {
                if let Some(n) = number_of(args[i + 1], u64::MAX as nat) {
                    lemma_number_bound(args[i + 1], u64::MAX as nat);
                    lemma_timeout(args, i + 2, inputs, csv_output, if n < 1 { 1 } else { n as u64 });
                }
            }
        } else {
            lemma_timeout(args, i + 1, inputs.push(args[i]), csv_output, timeout_secs);
        }
    }
}

proof fn lemma_number_bound(text: Seq<char>, max: nat)
    ensures
        number_of(text, max) matches Some(n) ==> n <= max,
{
}

/// Where a command line says nothing of a time, each file is given 5 seconds.
pub proof fn law_default_timeout(args: Seq<Seq<char>>)
    requires
        forall|i: int| 0 <= i < args.len() ==> (#[trigger] args[i]) != "--timeout"@ && args[i] != "-t"@,
    ensures
        asked(args) matches Asked::Scan { timeout_secs, .. } ==> timeout_secs == 5,
{
    lemma_default_timeout(args, 0, Seq::empty(), None);
}

proof fn lemma_default_timeout(
    args: Seq<Seq<char>>,
    i: int,
    inputs: Seq<Seq<char>>,
    csv_output: Option<Seq<char>>,
)
    requires
        forall|k: int| 0 <= k < args.len() ==> (#[trigger] args[k]) != "--timeout"@ && args[k] != "-t"@,
    ensures
        asked_from(args, i, inputs, csv_output, 5) matches Asked::Scan { timeout_secs, .. } ==> timeout_secs == 5,
    decreases args.len() - i,
{
    if 0 <= i < args.len() {
        if args[i] == "--csv"@ {
            if i + 1 < args.len() {
                lemma_default_timeout(args, i + 2, inputs, Some(args[i + 1]));
            }
        } else {
            lemma_default_timeout(args, i + 1, inputs.push(args[i]), csv_output);
        }
    }
}

/// The message for a refused command line.
pub open spec fn refusal_text(asked: Asked) -> Seq<char> {
    match asked {
        Asked::MissingCsvPath => "--csv 缺少输出文件路径"@,
        Asked::MissingTimeout => "--timeout 缺少秒数"@,
        Asked::InvalidTimeout(text) => "无效超时秒数: "@ + text,
        _ => "未提供输入文件或目录"@,
    }
}

impl ArgError {
    /// The message for the error.
    pub fn message(&self) -> (r: String)
        ensures
            r@ == match self {
                ArgError::MissingCsvPath => refusal_text(Asked::MissingCsvPath),
                ArgError::MissingTimeout => refusal_text(Asked::MissingTimeout),
                ArgError::InvalidTimeout(text) => refusal_text(Asked::InvalidTimeout(text@)),
                ArgError::NoInputs => refusal_text(Asked::NoInputs),
            },
    {
        match self {
            ArgError::MissingCsvPath => "--csv 缺少输出文件路径".to_owned(),
            ArgError::MissingTimeout => "--timeout 缺少秒数".to_owned(),
            ArgError::InvalidTimeout(text) => {
                let mut out: String = "无效超时秒数: ".to_owned();
                out.append(text.as_str());
                out
            },
            ArgError::NoInputs => "未提供输入文件或目录".to_owned(),
        }
    }
}

/// The lines that show how the program is used.
pub open spec fn usage() -> Seq<Seq<char>> {
    seq![
        "用法:"@,
        "  qr_scan_cli <文件或目录...> [--csv <输出.csv>] [--timeout <秒>]"@,
        "示例:"@,
        "  qr_scan_cli pdf/"@,
        "  qr_scan_cli invoice1.pdf photo.jpg report.docx --csv result.csv --timeout 45"@,
    ]
}

/// The lines that show how the program is used.
pub fn usage_lines() -> (r: Vec<String>)
    ensures
        texts_of(r@) == usage(),
{
    let mut out: Vec<String> = Vec::new();
    out.push("用法:".to_owned());
    out.push("  qr_scan_cli <文件或目录...> [--csv <输出.csv>] [--timeout <秒>]".to_owned());
    out.push("示例:".to_owned());
    out.push("  qr_scan_cli pdf/".to_owned());
    out.push("  qr_scan_cli invoice1.pdf photo.jpg report.docx --csv result.csv --timeout 45".to_owned());
    assert(texts_of(out@) =~= usage());
    out
}

/// A component of a path: what it is (a prefix, the root, the directory itself, its parent, or
/// a name, in this order), and the bytes of its name.
pub struct PathPart {
    pub rank: u8,
    pub name: Vec<u8>,
}

/// The components of a path.
pub open spec fn parts_of(parts: Seq<PathPart>) -> Seq<(u8, Seq<u8>)> {
    parts.map_values(|part: PathPart| (part.rank, part.name@))
}

/// Whether some bytes come before others: at the first place where they differ, by the lesser
/// byte or the end.
pub open spec fn bytes_less(a: Seq<u8>, b: Seq<u8>) -> bool
    decreases a.len(),
{
    if b.len() == 0 {
        false
    } else if a.len() == 0 {
        true
    } else if a[0] == b[0] {
        bytes_less(a.drop_first(), b.drop_first())
    } else {
        a[0] < b[0]
    }
}

/// Whether a component comes before another: by what it is, then by its name.
pub open spec fn part_less(a: (u8, Seq<u8>), b: (u8, Seq<u8>)) -> bool {
    a.0 < b.0 || (a.0 == b.0 && bytes_less(a.1, b.1))
}

/// Whether a path comes before another: at the first component where they differ, by the
/// lesser component or the end.
pub open spec fn path_less(a: Seq<(u8, Seq<u8>)>, b: Seq<(u8, Seq<u8>)>) -> bool
    decreases a.len(),
{
    if b.len() == 0 {
        false
    } else if a.len() == 0 {
        true
    } else if a[0] == b[0] {
        path_less(a.drop_first(), b.drop_first())
    } else {
        part_less(a[0], b[0])
    }
}

proof fn lemma_bytes_order(a: Seq<u8>, b: Seq<u8>, c: Seq<u8>)
    ensures
        a == b || bytes_less(a, b) || bytes_less(b, a),
        !(bytes_less(a, b) && bytes_less(b, a)),
        !bytes_less(a, a),
        bytes_less(a, b) && bytes_less(b, c) ==> bytes_less(a, c),
    decreases a.len() + b.len() + c.len(),
{
    if a.len() > 0 && b.len() > 0 {
        let rest = if c.len() > 0 { c.drop_first() } else { c };
        lemma_bytes_order(a.drop_first(), b.drop_first(), rest);
        if a[0] == b[0] && a.drop_first() == b.drop_first() {
            assert(a =~= seq![a[0]] + a.drop_first());
            assert(b =~= seq![b[0]] + b.drop_first());
        }
    } else if a.len() == 0 && b.len() == 0 {
        assert(a =~= b);
    }
    if a.len() > 0 {
        lemma_bytes_order(a.drop_first(), Seq::empty(), Seq::empty());
    }
}

proof fn lemma_path_order(a: Seq<(u8, Seq<u8>)>, b: Seq<(u8, Seq<u8>)>, c: Seq<(u8, Seq<u8>)>)
    ensures
        a == b || path_less(a, b) || path_less(b, a),
        !(path_less(a, b) && path_less(b, a)),
        path_less(a, b) && path_less(b, c) ==> path_less(a, c),
    decreases a.len() + b.len() + c.len(),
{
    if a.len() > 0 && b.len() > 0 {
        let rest = if c.len() > 0 { c.drop_first() } else { c };
        lemma_path_order(a.drop_first(), b.drop_first(), rest);
        lemma_bytes_order(a[0].1, b[0].1, if c.len() > 0 { c[0].1 } else { a[0].1 });
        if c.len() > 0 {
            lemma_bytes_order(a[0].1, c[0].1, b[0].1);
            lemma_bytes_order(b[0].1, c[0].1, a[0].1);
        }
        if a[0] == b[0] && a.drop_first() == b.drop_first() {
            assert(a =~= seq![a[0]] + a.drop_first());
            assert(b =~= seq![b[0]] + b.drop_first());
        }
    } else if a.len() == 0 && b.len() == 0 {
        assert(a =~= b);
    }
}

/// How two things stand in an order.
#[derive(Clone, Copy, PartialEq, Eq, Structural)]
enum Standing {
    Before,
    Same,
    After,
}

/// How some bytes stand to others.
fn bytes_standing(a: &Vec<u8>, b: &Vec<u8>) -> (r: Standing)
    ensures
        r == Standing::Before <==> bytes_less(a@, b@),
        r == Standing::Same <==> a@ == b@,
{
    let mut i: usize = 0;
    let ghost n = a@.len() as int;
    let ghost m = b@.len() as int;
    assert(a@.subrange(0, n) =~= a@);
    assert(b@.subrange(0, m) =~= b@);
    while i < a.len() && i < b.len() && a[i] == b[i]
        invariant
            n == a@.len(),
            m == b@.len(),
            i <= n,
            i <= m,
            bytes_less(a@, b@) == bytes_less(a@.subrange(i as int, n), b@.subrange(i as int, m)),
            forall|j: int| 0 <= j < i ==> a@[j] == b@[j],
        decreases n - i,
    {
        assert(a@.subrange(i as int, n).drop_first() =~= a@.subrange(i + 1, n));
        assert(b@.subrange(i as int, m).drop_first() =~= b@.subrange(i + 1, m));
        i = i + 1;
    }
    if i == b.len() {
        if i == a.len() {
            assert(a@ =~= b@);
            proof {
                lemma_bytes_order(a@, a@, a@);
            }
            Standing::Same
        } else {
            Standing::After
        }
    } else if i == a.len() {
        Standing::Before
    } else {
        assert(a@[i as int] != b@[i as int]);
        if a[i] < b[i] {
            Standing::Before
        } else {
            Standing::After
        }
    }
}

/// How a component stands to another.
fn part_standing(a: &PathPart, b: &PathPart) -> (r: Standing)
    ensures
        r == Standing::Before <==> part_less((a.rank, a.name@), (b.rank, b.name@)),
        r == Standing::Same <==> a.rank == b.rank && a.name@ == b.name@,
{
    if a.rank < b.rank {
        Standing::Before
    } else if a.rank > b.rank {
        Standing::After
    } else {
        bytes_standing(&a.name, &b.name)
    }
}

/// How a path stands to another.
fn path_standing(a: &Vec<PathPart>, b: &Vec<PathPart>) -> (r: Standing)
    ensures
        r == Standing::Before <==> path_less(parts_of(a@), parts_of(b@)),
        r == Standing::Same <==> parts_of(a@) == parts_of(b@),
{
    let ghost x = parts_of(a@);
    let ghost y = parts_of(b@);
    let ghost n = x.len() as int;
    let ghost m = y.len() as int;
    assert(x.subrange(0, n) =~= x);
    assert(y.subrange(0, m) =~= y);
    let mut i: usize = 0;
    while i < a.len() && i < b.len()
        invariant
            x == parts_of(a@),
            y == parts_of(b@),
            n == x.len(),
            m == y.len(),
            i <= n,
            i <= m,
            path_less(x, y) == path_less(x.subrange(i as int, n), y.subrange(i as int, m)),
            forall|j: int| 0 <= j < i ==> x[j] == y[j],
        decreases n - i,
    {
        let standing: Standing = part_standing(&a[i], &b[i]);
        match standing {
            Standing::Same => {},
            _ => {
                assert(x[i as int] != y[i as int]);
                return standing;
            },
        }
        assert(x.subrange(i as int, n).drop_first() =~= x.subrange(i + 1, n));
        assert(y.subrange(i as int, m).drop_first() =~= y.subrange(i + 1, m));
        i = i + 1;
    }
    if i == b.len() {
        if i == a.len() {
            assert(x =~= y);
            Standing::Same
        } else {
            Standing::After
        }
    } else {
        Standing::Before
    }
}

/// A file that was found: its path, and its extension where it has one.
pub struct FoundFile {
    pub parts: Vec<PathPart>,
    pub extension: Option<String>,
}

/// The path of file `i`.
pub open spec fn key_at(files: Seq<FoundFile>, i: int) -> Seq<(u8, Seq<u8>)> {
    parts_of(files[i].parts@)
}

/// Whether file `i` is one that is scanned.
pub open spec fn is_input(files: Seq<FoundFile>, i: int) -> bool {
    is_supported(
        match files[i].extension {
            Some(text) => Some(text@),
            None => None,
        },
    )
}

/// Whether file `k`, or the same file before it, has a place in the order.
pub open spec fn has_place(files: Seq<FoundFile>, order: Seq<usize>, k: int) -> bool {
    exists|i: int|
        0 <= i < order.len() && (#[trigger] order[i]) <= k && key_at(files, order[i] as int) == key_at(files, k)
}

/// Those of the first `n` files that are scanned, in the order of their paths, none of them
/// twice: each is the first of those that are the same.
pub open spec fn is_input_order(files: Seq<FoundFile>, n: int, order: Seq<usize>) -> bool {
    &&& forall|i: int| 0 <= i < order.len() ==> (#[trigger] order[i]) < n && is_input(files, order[i] as int)
    &&& forall|i: int, j: int|
        0 <= i < j < order.len() ==> path_less(
            key_at(files, #[trigger] order[i] as int),
            key_at(files, #[trigger] order[j] as int),
        )
    &&& forall|k: int| 0 <= k < n && is_input(files, k) ==> #[trigger] has_place(files, order, k)
}

proof fn lemma_insert_path(files: Seq<FoundFile>, order: Seq<usize>, at: int, k: usize)
    requires
        is_input_order(files, k as int, order),
        is_input(files, k as int),
        0 <= at <= order.len(),
        at > 0 ==> path_less(key_at(files, order[at - 1] as int), key_at(files, k as int)),
        forall|i: int|
            at <= i < order.len() ==> path_less(key_at(files, k as int), key_at(files, #[trigger] order[i] as int)),
    ensures
        is_input_order(files, k + 1, order.insert(at, k)),
{
    let mine = key_at(files, k as int);
    let after = order.insert(at, k);
    assert forall|i: int, j: int| 0 <= i < j < after.len() implies path_less(
        key_at(files, #[trigger] after[i] as int),
        key_at(files, #[trigger] after[j] as int),
    ) by {
        if i < at && j == at {
            if i < at - 1 {
                assert(path_less(key_at(files, order[i] as int), key_at(files, order[at - 1] as int)));
                lemma_path_order(key_at(files, order[i] as int), key_at(files, order[at - 1] as int), mine);
            }
        } else if i < at && j > at {
            assert(after[i] == order[i] && after[j] == order[j - 1]);
        } else if i == at {
            assert(after[j] == order[j - 1]);
        } else if i > at {
            assert(after[i] == order[i - 1] && after[j] == order[j - 1]);
        } else {
            assert(after[i] == order[i] && after[j] == order[j]);
        }
    }
    assert forall|i: int| 0 <= i < after.len() implies (#[trigger] after[i]) < k + 1 && is_input(
        files,
        after[i] as int,
    ) by {
        if i < at {
            assert(after[i] == order[i]);
        } else if i > at {
            assert(after[i] == order[i - 1]);
        }
    }
    assert forall|q: int| 0 <= q < k + 1 && is_input(files, q) implies #[trigger] has_place(files, after, q) by {
        if q == k {
            assert(after[at] == k);
        } else {
            assert(has_place(files, order, q));
            let i = choose|i: int|
                0 <= i < order.len() && (#[trigger] order[i]) <= q && key_at(files, order[i] as int) == key_at(
                    files,
                    q,
                );
            assert(after[if i < at { i } else { i + 1 }] == order[i]);
        }
    }
}

/// The places of the files that are scanned: those with a supported extension, in the order of
/// their paths, without those that occur again.
pub fn expand_inputs(files: &Vec<FoundFile>) -> (r: Vec<usize>)
    ensures
        is_input_order(files@, files@.len() as int, r@),
{
    let mut order: Vec<usize> = Vec::new();
    for k in 0..files.len()
        invariant
            is_input_order(files@, k as int, order@),
    {
        let extension: Option<&str> = match &files[k].extension {
            Some(text) => Some(text.as_str()),
            None => None,
        };
        if is_supported_input_path(extension) {
            insert_path(files, &mut order, k);
        } else {
            assert(is_input_order(files@, k + 1, order@)) by {
                assert forall|q: int| 0 <= q < k + 1 && is_input(files@, q) implies #[trigger] has_place(
                    files@,
                    order@,
                    q,
                ) by {}
            }
        }
    }
    order
}

/// Puts one more path in its place, unless the same path has one.
fn insert_path(files: &Vec<FoundFile>, order: &mut Vec<usize>, k: usize)
    requires
        k < files@.len(),
        is_input(files@, k as int),
        is_input_order(files@, k as int, old(order)@),
    ensures
        is_input_order(files@, k + 1, final(order)@),
{
    let ghost before = order@;
    let mut at: usize = order.len();
    while at > 0
        invariant
            at <= order@.len(),
            order@ == before,
            k < files@.len(),
            is_input(files@, k as int),
            is_input_order(files@, k as int, before),
            forall|i: int|
                at <= i < before.len() ==> path_less(
                    key_at(files@, k as int),
                    key_at(files@, #[trigger] before[i] as int),
                ),
        ensures
            at <= before.len(),
            order@ == before,
            at > 0 ==> path_less(key_at(files@, before[at - 1] as int), key_at(files@, k as int)),
            forall|i: int|
                at <= i < before.len() ==> path_less(
                    key_at(files@, k as int),
                    key_at(files@, #[trigger] before[i] as int),
                ),
        decreases at,
    {
        let other: usize = order[at - 1];
        assert(before[at - 1] < k);
        match path_standing(&files[k].parts, &files[other].parts) {
            Standing::Before => {},
            Standing::Same => {
                proof {
                    assert(before[at - 1] <= k);
                    assert(has_place(files@, before, k as int));
                    assert forall|q: int| 0 <= q < k + 1 && is_input(files@, q) implies #[trigger] has_place(
                        files@,
                        before,
                        q,
                    ) by {}
                }
                return;
            },
            Standing::After => {
                proof {
                    lemma_path_order(key_at(files@, before[at - 1] as int), key_at(files@, k as int), Seq::empty());
                }
                break;
            },
        }
        at = at - 1;
    }
    proof {
        lemma_insert_path(files@, before, at as int, k);
    }
    order.insert(at, k);
}

/// The paths of some of the files, in the order given.
pub open spec fn paths_in(files: Seq<FoundFile>, order: Seq<usize>) -> Seq<Seq<(u8, Seq<u8>)>> {
    order.map_values(|place: usize| key_at(files, place as int))
}

/// Whether a file with this path is among those that are scanned.
pub open spec fn has_input(files: Seq<FoundFile>, path: Seq<(u8, Seq<u8>)>) -> bool {
    exists|k: int| 0 <= k < files.len() && is_input(files, k) && #[trigger] key_at(files, k) == path
}

/// Paths that ascend, none of them twice.
pub open spec fn ascend(paths: Seq<Seq<(u8, Seq<u8>)>>) -> bool {
    forall|i: int, j: int| 0 <= i < j < paths.len() ==> path_less(#[trigger] paths[i], #[trigger] paths[j])
}

/// The files that are scanned ascend, none of them twice, and have just the paths of the
/// supported files that were found.
pub proof fn law_inputs(files: Seq<FoundFile>, order: Seq<usize>)
    requires
        is_input_order(files, files.len() as int, order),
    ensures
        ascend(paths_in(files, order)),
        forall|path: Seq<(u8, Seq<u8>)>| #[trigger]
            paths_in(files, order).contains(path) <==> has_input(files, path),
{
    let paths = paths_in(files, order);
    assert forall|path: Seq<(u8, Seq<u8>)>| #[trigger] paths.contains(path) <==> has_input(files, path) by {
        if paths.contains(path) {
            let i = choose|i: int| 0 <= i < paths.len() && paths[i] == path;
            assert(order[i] < files.len());
            assert(key_at(files, order[i] as int) == path);
        }
        if has_input(files, path) {
            let k = choose|k: int| 0 <= k < files.len() && is_input(files, k) && #[trigger] key_at(files, k) == path;
            assert(has_place(files, order, k));
            let i = choose|i: int|
                0 <= i < order.len() && (#[trigger] order[i]) <= k && key_at(files, order[i] as int) == key_at(
                    files,
                    k,
                );
            assert(paths[i] == path);
        }
    }
}

/// Ascending paths are known by which they are.
proof fn lemma_same_paths(a: Seq<Seq<(u8, Seq<u8>)>>, b: Seq<Seq<(u8, Seq<u8>)>>)
    requires
        ascend(a),
        ascend(b),
        forall|path: Seq<(u8, Seq<u8>)>| #[trigger] a.contains(path) <==> b.contains(path),
    ensures
        a == b,
    decreases a.len(),
{
    if a.len() == 0 {
        if b.len() > 0 {
            assert(b.contains(b[0]));
            assert(a.contains(b[0]));
        }
        assert(a =~= b);
    } else {
        assert(a.contains(a.last()));
        assert(b.contains(a.last()));
        let i = choose|i: int| 0 <= i < b.len() && b[i] == a.last();
        assert(b.contains(b.last()));
        assert(a.contains(b.last()));
        let j = choose|j: int| 0 <= j < a.len() && a[j] == b.last();
        lemma_path_order(a.last(), b.last(), Seq::empty());
        assert(i < b.len() - 1 ==> path_less(b[i], b[b.len() - 1]));
        assert(j < a.len() - 1 ==> path_less(a[j], a[a.len() - 1]));
        assert(a.last() == b.last());
        let x = a.drop_last();
        let y = b.drop_last();
        assert(ascend(x)) by {
            assert forall|m: int, n: int| 0 <= m < n < x.len() implies path_less(#[trigger] x[m], #[trigger] x[n]) by {
                assert(path_less(a[m], a[n]));
            }
        }
        assert(ascend(y)) by {
            assert forall|m: int, n: int| 0 <= m < n < y.len() implies path_less(#[trigger] y[m], #[trigger] y[n]) by {
                assert(path_less(b[m], b[n]));
            }
        }
        assert forall|path: Seq<(u8, Seq<u8>)>| #[trigger] x.contains(path) <==> y.contains(path) by {
            lemma_without_last(a, path);
            lemma_without_last(b, path);
            assert(a.contains(path) <==> b.contains(path));
        }
        lemma_same_paths(x, y);
        assert(a =~= x.push(a.last()));
        assert(b =~= y.push(b.last()));
    }
}

/// Without the last of them, ascending paths are those but the last.
proof fn lemma_without_last(paths: Seq<Seq<(u8, Seq<u8>)>>, path: Seq<(u8, Seq<u8>)>)
    requires
        paths.len() > 0,
        ascend(paths),
    ensures
        paths.drop_last().contains(path) <==> paths.contains(path) && path != paths.last(),
{
    let head = paths.drop_last();
    if head.contains(path) {
        let i = choose|i: int| 0 <= i < head.len() && head[i] == path;
        assert(paths[i] == path);
        assert(path_less(paths[i], paths[paths.len() - 1]));
        lemma_path_order(path, paths.last(), Seq::empty());
    }
    if paths.contains(path) && path != paths.last() {
        let i = choose|i: int| 0 <= i < paths.len() && paths[i] == path;
        assert(head[i] == path);
    }
}

/// The files that are scanned do not depend on the order in which files were found, nor on how
/// often: where the supported files have the same paths, the same paths are scanned, in the
/// same order.
pub proof fn law_inputs_found_in_any_order(
    files: Seq<FoundFile>,
    order: Seq<usize>,
    others: Seq<FoundFile>,
    other_order: Seq<usize>,
)
    requires
        is_input_order(files, files.len() as int, order),
        is_input_order(others, others.len() as int, other_order),
        forall|path: Seq<(u8, Seq<u8>)>| #[trigger] has_input(files, path) <==> has_input(others, path),
    ensures
        paths_in(files, order) == paths_in(others, other_order),
{
    law_inputs(files, order);
    law_inputs(others, other_order);
    let a = paths_in(files, order);
    let b = paths_in(others, other_order);
    assert forall|path: Seq<(u8, Seq<u8>)>| #[trigger] a.contains(path) <==> b.contains(path) by {
        assert(has_input(files, path) <==> has_input(others, path));
    }
    lemma_same_paths(a, b);
}

/// Expanding the files that are scanned once more changes nothing.
pub proof fn law_inputs_again(
    files: Seq<FoundFile>,
    order: Seq<usize>,
    again: Seq<FoundFile>,
    again_order: Seq<usize>,
)
    requires
        is_input_order(files, files.len() as int, order),
        again == order.map_values(|place: usize| files[place as int]),
        is_input_order(again, again.len() as int, again_order),
    ensures
        paths_in(again, again_order) == paths_in(files, order),
{
    law_inputs(files, order);
    let paths = paths_in(files, order);
    assert forall|path: Seq<(u8, Seq<u8>)>| #[trigger] has_input(files, path) <==> has_input(again, path) by {
        assert(paths.contains(path) <==> has_input(files, path));
        if paths.contains(path) {
            let i = choose|i: int| 0 <= i < paths.len() && paths[i] == path;
            assert(again[i] == files[order[i] as int]);
            assert(is_input(files, order[i] as int));
            assert(key_at(again, i) == path);
        }
        if has_input(again, path) {
            let i = choose|i: int| 0 <= i < again.len() && is_input(again, i) && #[trigger] key_at(again, i) == path;
            assert(paths[i] == path);
        }
    }
    law_inputs_found_in_any_order(files, order, again, again_order);
}

/// Whether an argument is none of the words that say how to scan.
pub open spec fn is_plain_arg(arg: Seq<char>) -> bool {
    arg != "--csv"@ && arg != "--timeout"@ && arg != "-t"@ && arg != "-h"@ && arg != "--help"@
}

/// What a command line that is read to its end asks for.
pub open spec fn asks(inputs: Seq<Seq<char>>, csv_output: Option<Seq<char>>, timeout_secs: u64) -> Asked {
    if inputs.len() == 0 {
        Asked::NoInputs
    } else {
        Asked::Scan { inputs, csv_output, timeout_secs }
    }
}

proof fn lemma_read_to_end(
    args: Seq<Seq<char>>,
    more: Seq<Seq<char>>,
    i: int,
    inputs: Seq<Seq<char>>,
    csv_output: Option<Seq<char>>,
    timeout_secs: u64,
) -> (r: (Seq<Seq<char>>, Option<Seq<char>>, u64))
    requires
        0 <= i <= args.len(),
        asked_from(args, i, inputs, csv_output, timeout_secs) is Scan || asked_from(
            args,
            i,
            inputs,
            csv_output,
            timeout_secs,
        ) is NoInputs,
    ensures
        asked_from(args, i, inputs, csv_output, timeout_secs) == asks(r.0, r.1, r.2),
        asked_from(args + more, i, inputs, csv_output, timeout_secs) == asked_from(
            args + more,
            args.len() as int,
            r.0,
            r.1,
            r.2,
        ),
    decreases args.len() - i,
{
    let all = args + more;
    if i == args.len() {
        (inputs, csv_output, timeout_secs)
    } else {
        assert(all[i] == args[i]);
        if i + 1 < args.len() {
            assert(all[i + 1] == args[i + 1]);
        }
        if args[i] == "--csv"@ {
            lemma_read_to_end(args, more, i + 2, inputs, Some(args[i + 1]), timeout_secs)
        } else if args[i] == "--timeout"@ || args[i] == "-t"@ {
            let n = number_of(args[i + 1], u64::MAX as nat)->0;
            lemma_read_to_end(args, more, i + 2, inputs, csv_output, if n < 1 { 1 } else { n as u64 })
        } else {
            lemma_read_to_end(args, more, i + 1, inputs.push(args[i]), csv_output, timeout_secs)
        }
    }
}

/// Arguments that are no options are what is scanned, all of them, in order; with no table and 5
/// seconds for each file. Without any there is nothing to scan.
pub proof fn law_plain_args(args: Seq<Seq<char>>)
    requires
        forall|i: int| 0 <= i < args.len() ==> is_plain_arg(#[trigger] args[i]),
    ensures
        args.len() == 0 ==> asked(args) is NoInputs,
        args.len() > 0 ==> asked(args) == (Asked::Scan { inputs: args, csv_output: None, timeout_secs: 5 }),
{
    lemma_plain_args(args, 0);
    assert(args.take(0) =~= Seq::empty());
    assert(args.take(args.len() as int) =~= args);
}

proof fn lemma_plain_args(args: Seq<Seq<char>>, i: int)
    requires
        0 <= i <= args.len(),
        forall|k: int| 0 <= k < args.len() ==> is_plain_arg(#[trigger] args[k]),
    ensures
        asked_from(args, i, args.take(i), None, 5) == asks(args.take(args.len() as int), None, 5),
    decreases args.len() - i,
{
    if i < args.len() {
        assert(args.take(i).push(args[i]) =~= args.take(i + 1));
        lemma_plain_args(args, i + 1);
    }
}

/// What one more argument, or option, at the end of a command line changes: a file is scanned
/// too, behind the others; a table is written to the path behind `--csv`; a file is given the
/// seconds behind `--timeout` or `-t`, at least one; `-h` and `--help` ask for help; and an option
/// that lacks its value, or has a wrong one, is refused.
pub proof fn law_one_more(args: Seq<Seq<char>>, arg: Seq<char>)
    requires
        asked(args) is Scan || asked(args) is NoInputs,
    ensures
        is_plain_arg(arg) ==> (asked(args.push(arg)) matches Asked::Scan { inputs, csv_output, timeout_secs }
            && inputs.last() == arg && (asked(args) matches Asked::Scan { inputs: i, csv_output: c, timeout_secs: t }
            ==> inputs == i.push(arg) && csv_output == c && timeout_secs == t) && (asked(args) is NoInputs ==> inputs
            == seq![arg])),
        asked(args) matches Asked::Scan { inputs: i, csv_output: c, timeout_secs: t } ==> asked(
            args + seq!["--csv"@, arg],
        ) == (Asked::Scan { inputs: i, csv_output: Some(arg), timeout_secs: t }),
        asked(args) matches Asked::Scan { inputs: i, csv_output: c, timeout_secs: t } ==> (number_of(
            arg,
            u64::MAX as nat,
        ) matches Some(n) ==> ({
            let seconds = (if n == 0 { 1 } else { n }) as u64;
            let wanted = Asked::Scan { inputs: i, csv_output: c, timeout_secs: seconds };
            &&& asked(args + seq!["--timeout"@, arg]) == wanted
            &&& asked(args + seq!["-t"@, arg]) == wanted
        })),
        number_of(arg, u64::MAX as nat) is None ==> asked(args + seq!["--timeout"@, arg]) == Asked::InvalidTimeout(arg)
            && asked(args + seq!["-t"@, arg]) == Asked::InvalidTimeout(arg),
        asked(args.push("--csv"@)) is MissingCsvPath,
        asked(args.push("--timeout"@)) is MissingTimeout,
        asked(args.push("-t"@)) is MissingTimeout,
        asked(args.push("-h"@)) is Help,
        asked(args.push("--help"@)) is Help,
{
    reveal_strlit("--csv");
    reveal_strlit("--timeout");
    reveal_strlit("-t");
    reveal_strlit("-h");
    reveal_strlit("--help");
    assert("-t"@[1] != "-h"@[1]);
    reveal_with_fuel(asked_from, 3);
    let (inputs, csv_output, timeout_secs) = lemma_added(args, seq![arg]);
    if is_plain_arg(arg) {
        assert(inputs.push(arg).last() == arg);
        assert(inputs.len() == 0 ==> inputs.push(arg) =~= seq![arg]);
    }
    lemma_added(args, seq!["--csv"@, arg]);
    lemma_added(args, seq!["--timeout"@, arg]);
    lemma_added(args, seq!["-t"@, arg]);
    lemma_added(args, seq!["--csv"@]);
    lemma_added(args, seq!["--timeout"@]);
    lemma_added(args, seq!["-t"@]);
    lemma_added(args, seq!["-h"@]);
    lemma_added(args, seq!["--help"@]);
    assert(args.push(arg) =~= args + seq![arg]);
    assert(args.push("--csv"@) =~= args + seq!["--csv"@]);
    assert(args.push("--timeout"@) =~= args + seq!["--timeout"@]);
    assert(args.push("-t"@) =~= args + seq!["-t"@]);
    assert(args.push("-h"@) =~= args + seq!["-h"@]);
    assert(args.push("--help"@) =~= args + seq!["--help"@]);
    lemma_number_bound(arg, u64::MAX as nat);
}

/// What arguments behind a command line that is read to its end ask for.
proof fn lemma_added(args: Seq<Seq<char>>, more: Seq<Seq<char>>) -> (r: (Seq<Seq<char>>, Option<Seq<char>>, u64))
    requires
        asked(args) is Scan || asked(args) is NoInputs,
        more.len() == 1 || more.len() == 2,
    ensures
        asked(args) == asks(r.0, r.1, r.2),
        asked(args + more) == asked_from(more, 0, r.0, r.1, r.2),
{
    let all = args + more;
    let n = args.len() as int;
    let r = lemma_read_to_end(args, more, 0, Seq::empty(), None, 5);
    assert(all[n] == more[0]);
    if more.len() == 2 {
        assert(all[n + 1] == more[1]);
    }
    reveal_with_fuel(asked_from, 3);
    r
}

/// A command line that asks for help, or has a wrong number of seconds, does so whatever follows.
pub proof fn law_ended(args: Seq<Seq<char>>, more: Seq<Seq<char>>)
    ensures
        asked(args) is Help ==> asked(args + more) is Help,
        asked(args) is InvalidTimeout ==> asked(args + more) == asked(args),
{
    lemma_ended(args, more, 0, Seq::empty(), None, 5);
}

proof fn lemma_ended(
    args: Seq<Seq<char>>,
    more: Seq<Seq<char>>,
    i: int,
    inputs: Seq<Seq<char>>,
    csv_output: Option<Seq<char>>,
    timeout_secs: u64,
)
    requires
        0 <= i,
    ensures
        ({
            let asks = asked_from(args, i, inputs, csv_output, timeout_secs);
            asks is Help || asks is InvalidTimeout ==> asked_from(args + more, i, inputs, csv_output, timeout_secs)
                == asks
        }),
    decreases args.len() - i,
{
    if i < args.len() {
        let all = args + more;
        assert(all[i] == args[i]);
        if i + 1 < args.len() {
            assert(all[i + 1] == args[i + 1]);
        }
        if args[i] == "--csv"@ {
            if i + 1 < args.len() {
                lemma_ended(args, more, i + 2, inputs, Some(args[i + 1]), timeout_secs);
            }
        } else if args[i] == "--timeout"@ || args[i] == "-t"@ {
            if i + 1 < args.len() {
                if let Some(n) = number_of(args[i + 1], u64::MAX as nat) {
                    lemma_ended(args, more, i + 2, inputs, csv_output, if n < 1 { 1 } else { n as u64 });
                }
            }
        } else {
            lemma_ended(args, more, i + 1, inputs.push(args[i]), csv_output, timeout_secs);
        }
    }
}

/// Bytes are ordered as in a dictionary: by the first place where they differ, or by the end.
pub proof fn law_bytes_less(a: Seq<u8>, b: Seq<u8>)
    ensures
        bytes_less(a, b) <==> exists|n: int|
            0 <= n <= a.len() && n < b.len() && #[trigger] a.take(n) == b.take(n) && (n == a.len() || a[n] < b[n]),
    decreases a.len(),
{
    if b.len() > 0 && a.len() == 0 {
        assert(a.take(0) =~= b.take(0));
    } else if b.len() > 0 && a[0] == b[0] {
        let x = a.drop_first();
        let y = b.drop_first();
        law_bytes_less(x, y);
        if bytes_less(x, y) {
            let n = choose|n: int|
                0 <= n <= x.len() && n < y.len() && #[trigger] x.take(n) == y.take(n) && (n == x.len() || x[n] < y[n]);
            assert(a.take(n + 1) =~= seq![a[0]] + x.take(n));
            assert(b.take(n + 1) =~= seq![b[0]] + y.take(n));
        }
        if exists|n: int|
            0 <= n <= a.len() && n < b.len() && #[trigger] a.take(n) == b.take(n) && (n == a.len() || a[n] < b[n]) {
            let n = choose|n: int|
                0 <= n <= a.len() && n < b.len() && #[trigger] a.take(n) == b.take(n) && (n == a.len() || a[n] < b[n]);
            assert(n > 0);
            assert(x.take(n - 1) =~= a.take(n).drop_first());
            assert(y.take(n - 1) =~= b.take(n).drop_first());
        }
    } else if b.len() > 0 {
        assert(a.take(0) =~= b.take(0));
        assert forall|n: int|
            0 <= n <= a.len() && n < b.len() && #[trigger] a.take(n) == b.take(n) && (n == a.len() || a[n]
                < b[n]) implies a[0] < b[0] by {
            if n > 0 {
                assert(a.take(n)[0] == b.take(n)[0]);
            }
        }
    }
}

/// Paths are ordered by the first component where they differ: by what it is, then by its name;
/// or by the end.
pub proof fn law_path_less(a: Seq<(u8, Seq<u8>)>, b: Seq<(u8, Seq<u8>)>)
    ensures
        path_less(a, b) <==> exists|n: int|
            0 <= n <= a.len() && n < b.len() && #[trigger] a.take(n) == b.take(n) && (n == a.len() || a[n].0 < b[n].0 || (
            a[n].0 == b[n].0 && bytes_less(a[n].1, b[n].1))),
    decreases a.len(),
{
    if b.len() > 0 && a.len() == 0 {
        assert(a.take(0) =~= b.take(0));
    } else if b.len() > 0 && a[0] == b[0] {
        let x = a.drop_first();
        let y = b.drop_first();
        law_path_less(x, y);
        lemma_bytes_order(a[0].1, a[0].1, a[0].1);
        if path_less(x, y) {
            let n = choose|n: int|
                0 <= n <= x.len() && n < y.len() && #[trigger] x.take(n) == y.take(n) && (n == x.len() || x[n].0
                    < y[n].0 || (x[n].0 == y[n].0 && bytes_less(x[n].1, y[n].1)));
            assert(a.take(n + 1) =~= seq![a[0]] + x.take(n));
            assert(b.take(n + 1) =~= seq![b[0]] + y.take(n));
        }
        if exists|n: int|
            0 <= n <= a.len() && n < b.len() && #[trigger] a.take(n) == b.take(n) && (n == a.len() || a[n].0 < b[n].0 || (
            a[n].0 == b[n].0 && bytes_less(a[n].1, b[n].1))) {
            let n = choose|n: int|
                0 <= n <= a.len() && n < b.len() && #[trigger] a.take(n) == b.take(n) && (n == a.len() || a[n].0
                    < b[n].0 || (a[n].0 == b[n].0 && bytes_less(a[n].1, b[n].1)));
            assert(n > 0);
            assert(x.take(n - 1) =~= a.take(n).drop_first());
            assert(y.take(n - 1) =~= b.take(n).drop_first());
        }
    } else if b.len() > 0 {
        assert(a.take(0) =~= b.take(0));
        assert forall|n: int|
            0 <= n <= a.len() && n < b.len() && #[trigger] a.take(n) == b.take(n) && (n == a.len() || a[n].0 < b[n].0 || (
            a[n].0 == b[n].0 && bytes_less(a[n].1, b[n].1))) implies part_less(a[0], b[0]) by {
            if n > 0 {
                assert(a.take(n)[0] == b.take(n)[0]);
            }
        }
    }
}

/// Each refusal has a message of its own, and that of a wrong number of seconds shows it.
pub proof fn law_refusals(text: Seq<char>)
    ensures
        refusal_text(Asked::MissingCsvPath) == "--csv 缺少输出文件路径"@,
        refusal_text(Asked::MissingTimeout) == "--timeout 缺少秒数"@,
        refusal_text(Asked::InvalidTimeout(text)) == "无效超时秒数: "@ + text,
        refusal_text(Asked::NoInputs) == "未提供输入文件或目录"@,
{
}

/// The components of a path are each of them, in order.
pub proof fn law_parts_of(parts: Seq<PathPart>)
    ensures
        parts_of(parts).len() == parts.len(),
        forall|i: int|
            0 <= i < parts.len() ==> parts_of(parts)[i].0 == (#[trigger] parts[i]).rank && parts_of(parts)[i].1
                == parts[i].name@,
{
}

/// What a request says is what it holds.
pub proof fn law_request(inputs: Vec<String>, csv_output: String, timeout_secs: u64)
    ensures
        (Request::Scan { inputs, csv_output: Some(csv_output), timeout_secs })@ == (Asked::Scan {
            inputs: texts_of(inputs@),
            csv_output: Some(csv_output@),
            timeout_secs,
        }),
        (Request::Scan { inputs, csv_output: None, timeout_secs })@ == (Asked::Scan {
            inputs: texts_of(inputs@),
            csv_output: None,
            timeout_secs,
        }),
        Request::Help@ is Help,
{
}

} // verus!
