//! Where the command-line tool keeps the files of a circom program.
//!
//! Everything derived from a source `dir/name.circom` lives in the folder
//! `dir/name_gkr`: the compiled `name.r1cs`, the witness generator
//! `name_js/name.wasm`, `input.json`, `witness.json`, `proof.bin` and
//! `proof.json`. Path arithmetic is done by `std::path` for the target the
//! crate is built for; the contracts name its results.
use crate::field::{be_bytes_value, Fp};
use num_bigint::BigInt;
use std::path::Path;
use vstd::prelude::*;

verus! {

/// The file stem of `path` as `Path::file_stem` gives it, read as text:
/// `None` when the path has no file name.
pub uninterp spec fn path_file_stem(path: Seq<char>) -> Option<Seq<char>>;

/// The parent of `path` as `Path::parent` gives it, read as text: `None`
/// when the path ends in a root or a prefix, or is empty.
pub uninterp spec fn path_parent(path: Seq<char>) -> Option<Seq<char>>;

/// `base` extended with `part` as `Path::join` gives it, read as text.
pub uninterp spec fn path_join(base: Seq<char>, part: Seq<char>) -> Seq<char>;

/// Calls `Path::file_stem` on `path` and reads the stem as text with
/// `to_string_lossy`. Trusted: the result is `path_file_stem` of the argument.
#[verifier::external_body]
fn file_stem_of(path: &String) -> (r: Option<String>)
    ensures
        r is Some <==> path_file_stem(path@) is Some,
        r matches Some(s) ==> path_file_stem(path@) == Some(s@),
{
    match Path::new(path.as_str()).file_stem() {
        Some(s) => Some(s.to_string_lossy().to_string()),
        None => None,
    }
}

/// Calls `Path::parent` on `path` and reads the parent as text with
/// `to_string_lossy`. Trusted: the result is `path_parent` of the argument.
#[verifier::external_body]
fn parent_of(path: &String) -> (r: Option<String>)
    ensures
        r is Some <==> path_parent(path@) is Some,
        r matches Some(s) ==> path_parent(path@) == Some(s@),
{
    match Path::new(path.as_str()).parent() {
        Some(p) => Some(p.to_string_lossy().to_string()),
        None => None,
    }
}

/// Calls `Path::join` on `base` with `part` and reads the result as text with
/// `to_string_lossy`. Trusted: the result is `path_join` of the arguments.
#[verifier::external_body]
fn join_paths(base: &String, part: &String) -> (r: String)
    ensures
        r@ == path_join(base@, part@),
{
    Path::new(base.as_str()).join(part.as_str()).to_string_lossy().to_string()
}

/// `s` without one leading `c`, unless a `+` follows it.
pub open spec fn strip_sign(s: Seq<char>, c: char) -> Seq<char> {
    if s.len() > 0 && s[0] == c && !(s.len() > 1 && s[1] == '+') {
        s.drop_first()
    } else {
        s
    }
}

/// The digit part of an integer literal: a leading `-`, then a leading `+`, taken off.
pub open spec fn digits_part(s: Seq<char>) -> Seq<char> {
    strip_sign(strip_sign(s, '-'), '+')
}

/// Decimal digits and underscores, at least one character, not starting with an underscore.
pub open spec fn is_digit_text(t: Seq<char>) -> bool {
    &&& t.len() > 0
    &&& t[0] != '_'
    &&& forall|i: int| 0 <= i < t.len() ==> ('0' <= #[trigger] t[i] && t[i] <= '9') || t[i] == '_'
}

/// The number the decimal digits of `t` spell, underscores skipped.
pub open spec fn decimal_value(t: Seq<char>) -> nat
    decreases t.len(),
{
    if t.len() == 0 {
        0
    } else if t.last() == '_' {
        decimal_value(t.drop_last())
    } else {
        decimal_value(t.drop_last()) * 10 + ((t.last() as nat) - ('0' as nat)) as nat
    }
}

/// Calls `num_bigint::BigInt::from_str` on `s` (through `str::parse`) and, on success, `to_bytes_be`,
/// keeping the magnitude. Trusted: the text is accepted exactly when its digit
/// part is decimal digits and underscores not starting with an underscore, and
/// the bytes are the big-endian magnitude of the number (the sign is dropped).
#[verifier::external_body]
fn parse_decimal_magnitude(s: &str) -> (r: Option<Vec<u8>>)
    ensures
        r is Some <==> is_digit_text(digits_part(s@)),
        r matches Some(b) ==> be_bytes_value(b@) == decimal_value(digits_part(s@)),
{
    match s.parse::<BigInt>() {
        Ok(n) => Some(n.to_bytes_be().1),
        Err(_) => None,
    }
}

/// The big-endian magnitude of an input value of `input.json` (`None` when the
/// value is not a string): the empty string stands for zero, any other string
/// must be an integer literal.
pub fn input_value_bytes(value: Option<String>) -> (r: Result<Vec<u8>, &'static str>)
    ensures
        match value {
            None => r == Err::<Vec<u8>, &'static str>(
                "invalid input.json expected number strings for value e.g. {\"a\": \"1\"}",
            ),
            Some(s) => if s@.len() == 0 {
                r matches Ok(b) && b@.len() == 0
            } else if is_digit_text(digits_part(s@)) {
                r matches Ok(b) && be_bytes_value(b@) == decimal_value(digits_part(s@))
            } else {
                r == Err::<Vec<u8>, &'static str>("invalid input.json value: expected number")
            },
        },
{
    let text = match value {
        Some(t) => t,
        None => {
            return Err("invalid input.json expected number strings for value e.g. {\"a\": \"1\"}");
        },
    };
    if text.as_str().unicode_len() == 0 {
        return Ok(Vec::new());
    }
    match parse_decimal_magnitude(text.as_str()) {
        Some(bytes) => Ok(bytes),
        None => Err("invalid input.json value: expected number"),
    }
}

/// An input value of `input.json` as a field element (`None` when the value is
/// not a string): the empty string is zero, any other string must be an
/// integer literal, whose magnitude is reduced modulo `P`.
pub fn json_value_to_field_element<const P: u64>(value: Option<String>) -> (r: Result<Fp<P>, &'static str>)
    requires
        0 < P,
    ensures
        match value {
            None => r is Err,
            Some(s) => if s@.len() == 0 {
                r == Ok::<Fp<P>, &'static str>(Fp::<P>::from_nat(0))
            } else if is_digit_text(digits_part(s@)) {
                r == Ok::<Fp<P>, &'static str>(Fp::<P>::from_nat(decimal_value(digits_part(s@))))
            } else {
                r is Err
            },
        },
{
    let bytes = input_value_bytes(value)?;
    let x = Fp::from_be_bytes_mod_order(bytes.as_slice());
    proof {
        if bytes@.len() == 0 {
            assert(be_bytes_value(bytes@) == 0);
        }
    }
    Ok(x)
}

/// The paths of the files kept for one circom source.
pub struct ArtifactPaths {
    pub base_folder: String,
    pub r1cs: String,
    pub wasm: String,
    pub input: String,
    pub witness: String,
    pub proof: String,
    pub proof_json: String,
}

/// The file layout for a circom source file.
pub struct CLIFunctions {
    source_file_path: String,
}

impl CLIFunctions {
    /// The source file's path.
    pub closed spec fn source(self) -> Seq<char> {
        self.source_file_path@
    }

    /// The source path has a file stem and a parent folder.
    pub open spec fn has_layout(self) -> bool {
        path_file_stem(self.source()) is Some && path_parent(self.source()) is Some
    }

    /// The source file's name without its extension.
    pub open spec fn stem(self) -> Seq<char> {
        path_file_stem(self.source())->Some_0
    }

    /// The folder of the derived files: `<parent>/<stem>_gkr`.
    pub open spec fn folder(self) -> Seq<char> {
        path_join(path_parent(self.source())->Some_0, self.stem() + "_gkr"@)
    }

    /// The path of the file `name` in the folder of the derived files.
    pub open spec fn in_folder(self, name: Seq<char>) -> Seq<char> {
        path_join(self.folder(), name)
    }

    /// The source path ends with `.circom`.
    pub open spec fn is_circom(self) -> bool {
        self.source().len() >= 7 && self.source().subrange(
            self.source().len() - 7,
            self.source().len() as int,
        ) == ".circom"@
    }

    /// The layout for the circom source at `source_file_path`.
    pub fn new(source_file_path: String) -> (r: Self)
        ensures
            r.source() == source_file_path@,
    {
        CLIFunctions { source_file_path }
    }

    /// The circom file's name without its extension,
    /// e.g. `program.circom` gives `program`.
    pub fn file_name(&self) -> (r: String)
        requires
            path_file_stem(self.source()) is Some,
        ensures
            r@ == self.stem(),
    {
        file_stem_of(&self.source_file_path).unwrap()
    }

    /// The folder that holds every file derived from the source.
    pub fn base_folder(&self) -> (r: String)
        requires
            self.has_layout(),
        ensures
            r@ == self.folder(),
    {
        let source_folder = parent_of(&self.source_file_path).unwrap();
        let mut base_folder_name = self.file_name();
        base_folder_name.append("_gkr");
        join_paths(&source_folder, &base_folder_name)
    }

    /// The path of the R1CS file, `<folder>/<stem>.r1cs`.
    pub fn r1cs_path(&self) -> (r: String)
        requires
            self.has_layout(),
        ensures
            r@ == self.in_folder(self.stem() + ".r1cs"@),
    {
        let mut name = self.file_name();
        name.append(".r1cs");
        join_paths(&self.base_folder(), &name)
    }

    /// The path of the witness generator, `<folder>/<stem>_js/<stem>.wasm`.
    pub fn wasm_path(&self) -> (r: String)
        requires
            self.has_layout(),
        ensures
            r@ == self.in_folder(self.stem() + "_js/"@ + self.stem() + ".wasm"@),
    {
        let stem = self.file_name();
        let mut name = self.file_name();
        name.append("_js/");
        name.append(stem.as_str());
        name.append(".wasm");
        join_paths(&self.base_folder(), &name)
    }

    /// The path of `name` in the folder of the derived files.
    fn folder_file(&self, name: &str) -> (r: String)
        requires
            self.has_layout(),
        ensures
            r@ == self.in_folder(name@),
    {
        let file = String::from_str(name);
        join_paths(&self.base_folder(), &file)
    }

    /// The path of the input file, `<folder>/input.json`.
    pub fn input_path(&self) -> (r: String)
        requires
            self.has_layout(),
        ensures
            r@ == self.in_folder("input.json"@),
    {
        self.folder_file("input.json")
    }

    /// The path of the witness file, `<folder>/witness.json`.
    pub fn witness_path(&self) -> (r: String)
        requires
            self.has_layout(),
        ensures
            r@ == self.in_folder("witness.json"@),
    {
        self.folder_file("witness.json")
    }

    /// The path of the binary proof, `<folder>/proof.bin`.
    pub fn proof_path(&self) -> (r: String)
        requires
            self.has_layout(),
        ensures
            r@ == self.in_folder("proof.bin"@),
    {
        self.folder_file("proof.bin")
    }

    /// The path of the proof as JSON, `<folder>/proof.json`.
    pub fn proof_path_json(&self) -> (r: String)
        requires
            self.has_layout(),
        ensures
            r@ == self.in_folder("proof.json"@),
    {
        self.folder_file("proof.json")
    }

    /// All the paths of the layout, or `None` when the source path has no
    /// file stem or no parent folder.
    pub fn artifact_paths(&self) -> (r: Option<ArtifactPaths>)
        ensures
            r is Some <==> self.has_layout(),
            r matches Some(p) ==> {
                &&& p.base_folder@ == self.folder()
                &&& p.r1cs@ == self.in_folder(self.stem() + ".r1cs"@)
                &&& p.wasm@ == self.in_folder(self.stem() + "_js/"@ + self.stem() + ".wasm"@)
                &&& p.input@ == self.in_folder("input.json"@)
                &&& p.witness@ == self.in_folder("witness.json"@)
                &&& p.proof@ == self.in_folder("proof.bin"@)
                &&& p.proof_json@ == self.in_folder("proof.json"@)
            },
    {
        if file_stem_of(&self.source_file_path).is_none() || parent_of(&self.source_file_path).is_none() {
            return None;
        }
        Some(
            ArtifactPaths {
                base_folder: self.base_folder(),
                r1cs: self.r1cs_path(),
                wasm: self.wasm_path(),
                input: self.input_path(),
                witness: self.witness_path(),
                proof: self.proof_path(),
                proof_json: self.proof_path_json(),
            },
        )
    }

    /// Whether the source path ends with `.circom`.
    pub fn is_circom_file(&self) -> (r: bool)
        ensures
            r == self.is_circom(),
    {
        let s = self.source_file_path.as_str();
        let ext = ".circom";
        proof {
            reveal_strlit(".circom");
        }
        let n = s.unicode_len();
        if n < 7 {
            return false;
        }
        let mut j: usize = 0;
        while j < 7
            invariant
                j <= 7,
                s@ == self.source(),
                n == s@.len(),
                n >= 7,
                ext@ == ".circom"@,
                ext@.len() == 7,
                forall|t: int| 0 <= t < j ==> s@[n - 7 + t] == ext@[t],
            decreases 7 - j,
        {
            if s.get_char(n - 7 + j) != ext.get_char(j) {
                proof {
                    assert(s@ == self.source());
                    assert(s@.subrange(n - 7, n as int)[j as int] != ".circom"@[j as int]);
                    assert(s@.subrange(n - 7, n as int) != ".circom"@);
                }
                return false;
            }
            j = j + 1;
        }
        proof {
            assert(s@.subrange(n - 7, n as int) =~= ".circom"@);
        }
        true
    }

    /// The checks made before compiling: the source must exist
    /// (`source_exists`, found by the caller) and be a `.circom` file.
    pub fn check_source(&self, source_exists: bool) -> (r: Result<(), &'static str>)
        ensures
            !source_exists ==> r == Err::<(), &'static str>("source file not found"),
            source_exists && !self.is_circom() ==> r == Err::<(), &'static str>("source file must be a circom file"),
            source_exists && self.is_circom() ==> r == Ok::<(), &'static str>(()),
    {
        if !source_exists {
            return Err("source file not found");
        }
        if !self.is_circom_file() {
            return Err("source file must be a circom file");
        }
        Ok(())
    }
}

/// Compilation is needed unless the R1CS file, the witness generator and the
/// input file all exist.
pub fn needs_compile(r1cs_exists: bool, wasm_exists: bool, input_exists: bool) -> (r: bool)
    ensures
        r == !(r1cs_exists && wasm_exists && input_exists),
{
    !r1cs_exists || !wasm_exists || !input_exists
}

} // verus!
