use vstd::prelude::*;

verus! {

/// The extension that `std::path::Path::extension` finds in a path.
pub uninterp spec fn extension_of(path: Seq<char>) -> Option<Seq<char>>;

/// Relies on `std::path::Path::extension`: the part of the file name after its
/// final `.`; none where the path holds no `.` at all.
#[verifier::external_body]
fn path_extension(path: &str) -> (r: Option<String>)
    ensures
        r is None <==> extension_of(path@) is None,
        r matches Some(e) ==> extension_of(path@) == Some(e@),
        !path@.contains('.') ==> r is None,
{
    std::path::Path::new(path).extension().map(|e| e.to_string_lossy().into_owned())
}

/// The code of `c` after ASCII upper-casing.
pub open spec fn upper_code(c: char) -> int {
    let n = c as int;
    if 97 <= n <= 122 {
        n - 32
    } else {
        n
    }
}

/// The code of `c` after ASCII lower-casing.
pub open spec fn lower_code(c: char) -> int {
    let n = c as int;
    if 65 <= n <= 90 {
        n + 32
    } else {
        n
    }
}

/// `s`, upper-cased in ASCII, is `t`.
pub open spec fn upper_is(s: Seq<char>, t: Seq<char>) -> bool {
    &&& s.len() == t.len()
    &&& forall|i: int| 0 <= i < s.len() ==> upper_code(#[trigger] s[i]) == t[i] as int
}

/// `s`, lower-cased in ASCII, is `t`.
pub open spec fn lower_is(s: Seq<char>, t: Seq<char>) -> bool {
    &&& s.len() == t.len()
    &&& forall|i: int| 0 <= i < s.len() ==> lower_code(#[trigger] s[i]) == t[i] as int
}

/// The accepted extensions, upper case.
pub open spec fn accepted_upper() -> Seq<Seq<char>> {
    seq![seq!['C', 'R', '2'], seq!['J', 'P', 'G']]
}

/// The extension `e` is accepted: upper-cased, it is one of the accepted set.
pub open spec fn is_accepted_extension(e: Seq<char>) -> bool {
    exists|i: int| 0 <= i < accepted_upper().len() && upper_is(e, #[trigger] accepted_upper()[i])
}

/// The path has an extension, and it is accepted.
pub open spec fn has_accepted_extension(path: Seq<char>) -> bool {
    match extension_of(path) {
        Some(e) => is_accepted_extension(e),
        None => false,
    }
}

fn upper_matches(s: &str, t: &str) -> (r: bool)
    ensures
        r == upper_is(s@, t@),
{
    let n = s.unicode_len();
    if n != t.unicode_len() {
        return false;
    }
    let mut i: usize = 0;
    while i < n
        invariant
            n == s@.len(),
            n == t@.len(),
            i <= n,
            forall|j: int| 0 <= j < i ==> upper_code(#[trigger] s@[j]) == t@[j] as int,
        decreases n - i,
    {
        let c = s.get_char(i);
        let code = c as u32;
        let up: u32 = if 97 <= code && code <= 122 {
            code - 32
        } else {
            code
        };
        if up != t.get_char(i) as u32 {
            return false;
        }
        i = i + 1;
    }
    true
}

/// Whether an extension (without its dot) is one of the accepted photo
/// extensions, compared without regard to ASCII case.
pub fn accepted_extension(ext: &str) -> (r: bool)
    ensures
        r == is_accepted_extension(ext@),
{
    let cr2 = upper_matches(ext, "CR2");
    let jpg = upper_matches(ext, "JPG");
    proof {
        reveal_strlit("CR2");
        reveal_strlit("JPG");
        assert("CR2"@ =~= accepted_upper()[0]);
        assert("JPG"@ =~= accepted_upper()[1]);
    }
    cr2 || jpg
}

/// Whether the path's extension is one of the accepted photo extensions,
/// compared without regard to ASCII case.
pub fn compatible_extension(path: &str) -> (r: bool)
    ensures
        r == has_accepted_extension(path@),
        !path@.contains('.') ==> !r,
{
    match path_extension(path) {
        Some(ext) => accepted_extension(ext.as_str()),
        None => false,
    }
}


/// The accepted extensions, lower case.
pub open spec fn accepted_lower() -> Seq<Seq<char>> {
    seq![seq!['c', 'r', '2'], seq!['j', 'p', 'g']]
}

proof fn lemma_upper_lower(e: Seq<char>, i: int)
    requires
        0 <= i < accepted_upper().len(),
    ensures
        upper_is(e, accepted_upper()[i]) <==> lower_is(e, accepted_lower()[i]),
{
    let u = accepted_upper()[i];
    let l = accepted_lower()[i];
    assert forall|j: int| 0 <= j < u.len() implies (upper_code(e[j]) == u[j] as int <==> lower_code(
        e[j],
    ) == l[j] as int) by {
        assert(u.len() == 3 && l.len() == 3);
    }
    if upper_is(e, u) {
        assert forall|j: int| 0 <= j < e.len() implies lower_code(#[trigger] e[j]) == l[j] as int by {
            assert(upper_code(e[j]) == u[j] as int);
        }
    }
    if lower_is(e, l) {
        assert forall|j: int| 0 <= j < e.len() implies upper_code(#[trigger] e[j]) == u[j] as int by {
            assert(lower_code(e[j]) == l[j] as int);
        }
    }
}

/// A path is compatible exactly when it has an extension whose ASCII
/// lower-case form is `cr2` or `jpg`: the case of the extension does not matter.
pub proof fn lemma_compatible_iff_lowercase(path: Seq<char>)
    ensures
        has_accepted_extension(path) <==> (extension_of(path) matches Some(e) && (lower_is(
            e,
            seq!['c', 'r', '2'],
        ) || lower_is(e, seq!['j', 'p', 'g']))),
{
    if let Some(e) = extension_of(path) {
        lemma_upper_lower(e, 0);
        lemma_upper_lower(e, 1);
        if is_accepted_extension(e) {
            let i = choose|i: int| 0 <= i < accepted_upper().len() && upper_is(e, #[trigger] accepted_upper()[i]);
            lemma_upper_lower(e, i);
        }
        if upper_is(e, accepted_upper()[0]) {
            assert(is_accepted_extension(e));
        }
        if upper_is(e, accepted_upper()[1]) {
            assert(is_accepted_extension(e));
        }
    }
}

/// A path without an extension, or whose name ends in `.`, is never compatible.
pub proof fn lemma_no_extension_rejected(path: Seq<char>)
    requires
        extension_of(path) is None || extension_of(path) == Some(Seq::<char>::empty()),
    ensures
        !has_accepted_extension(path),
{
    if let Some(e) = extension_of(path) {
        assert(forall|i: int| 0 <= i < accepted_upper().len() ==> #[trigger] accepted_upper()[i].len() == 3);
    }
}

} // verus!
