//! Validation of the image list read from the configuration file.

use vstd::prelude::*;

verus! {

#[verifier::external_type_specification]
#[verifier::external_body]
pub struct ExIoError(std::io::Error);

#[verifier::external_type_specification]
#[verifier::external_body]
pub struct ExTomlError(toml::de::Error);

/// Why a configuration could not be used.
#[derive(Debug)]
pub enum ConfigError {
    Io(std::io::Error),
    Parse(toml::de::Error),
    ImageNotFound(String),
    DuplicateName(String),
    InvalidValue(String),
}

impl ConfigError {
    /// The message shown for the error: what went wrong, then its detail (for a
    /// read or parse error, the text the error itself displays).
    pub fn message(&self) -> (text: String)
        ensures
            match self {
                ConfigError::Io(err) => exists|detail: String|
                    vstd::string::to_string_from_display_ensures::<std::io::Error>(err, detail)
                        && text@ == "Failed to read config file: "@ + detail@,
                ConfigError::Parse(err) => exists|detail: String|
                    vstd::string::to_string_from_display_ensures::<toml::de::Error>(err, detail)
                        && text@ == "Failed to parse TOML: "@ + detail@,
                ConfigError::ImageNotFound(path) => text@ == "Image file not found: "@ + path@,
                ConfigError::DuplicateName(name) => text@ == "Duplicate image name: "@ + name@,
                ConfigError::InvalidValue(msg) => text@ == "Invalid configuration: "@ + msg@,
            },
    {
        let (head, detail) = match self {
            ConfigError::Io(err) => ("Failed to read config file: ", err.to_string()),
            ConfigError::Parse(err) => ("Failed to parse TOML: ", err.to_string()),
            ConfigError::ImageNotFound(path) => ("Image file not found: ", path.clone()),
            ConfigError::DuplicateName(name) => ("Duplicate image name: ", name.clone()),
            ConfigError::InvalidValue(msg) => ("Invalid configuration: ", msg.clone()),
        };
        let mut text = String::from_str(head);
        text.append(detail.as_str());
        text
    }
}

impl From<std::io::Error> for ConfigError {
    fn from(err: std::io::Error) -> (e: Self) {
        ConfigError::Io(err)
    }
}

impl vstd::std_specs::convert::FromSpecImpl<std::io::Error> for ConfigError {
    open spec fn obeys_from_spec() -> bool {
        true
    }

    open spec fn from_spec(v: std::io::Error) -> Self {
        ConfigError::Io(v)
    }
}

impl From<toml::de::Error> for ConfigError {
    fn from(err: toml::de::Error) -> (e: Self) {
        ConfigError::Parse(err)
    }
}

impl vstd::std_specs::convert::FromSpecImpl<toml::de::Error> for ConfigError {
    open spec fn obeys_from_spec() -> bool {
        true
    }

    open spec fn from_spec(v: toml::de::Error) -> Self {
        ConfigError::Parse(v)
    }
}

/// One configured image, as the library reads it: its name, how many contour
/// points to sample, whether its target size is positive, and the optional
/// integer settings of its pipeline.
pub struct ImageEntry {
    pub name: String,
    pub num_points_sample: usize,
    pub target_size_positive: bool,
    pub invert: Option<bool>,
    pub closing_iterations: Option<u8>,
    pub min_component_points: Option<usize>,
    pub max_components: Option<usize>,
    pub max_bridges: Option<usize>,
}

impl ImageEntry {
    /// Whether to invert the image; off unless set.
    pub fn invert(&self) -> (b: bool)
        ensures
            b == (match self.invert {
                Some(v) => v,
                None => false,
            }),
    {
        match self.invert {
            Some(v) => v,
            None => false,
        }
    }

    /// How many closings to apply; 1 unless set.
    pub fn closing_iterations(&self) -> (n: u8)
        ensures
            n == (match self.closing_iterations {
                Some(v) => v,
                None => 1,
            }),
    {
        match self.closing_iterations {
            Some(v) => v,
            None => 1,
        }
    }

    /// The fewest pixels a component needs to be traced; 10 unless set.
    pub fn min_component_points(&self) -> (n: usize)
        ensures
            n == (match self.min_component_points {
                Some(v) => v,
                None => 10,
            }),
    {
        match self.min_component_points {
            Some(v) => v,
            None => 10,
        }
    }

    /// How many strokes to link; 0 (all) unless set.
    pub fn max_components(&self) -> (n: usize)
        ensures
            n == (match self.max_components {
                Some(v) => v,
                None => 0,
            }),
    {
        match self.max_components {
            Some(v) => v,
            None => 0,
        }
    }

    /// How many gaps to bridge at most; 50 unless set.
    pub fn max_bridges(&self) -> (n: usize)
        ensures
            n == (match self.max_bridges {
                Some(v) => v,
                None => 50,
            }),
    {
        match self.max_bridges {
            Some(v) => v,
            None => 50,
        }
    }
}

/// The message for an image that samples no points.
pub open spec fn no_points_message(name: Seq<char>) -> Seq<char> {
    "num_points must be > 0 for image '"@ + name + "'"@
}

/// The message for an image whose target size is not positive.
pub open spec fn bad_size_message(name: Seq<char>) -> Seq<char> {
    "target_size must be > 0.0 for image '"@ + name + "'"@
}

/// An image before position `i` has the same name as image `i`.
pub open spec fn name_seen_before(entries: Seq<ImageEntry>, i: int) -> bool {
    exists|j: int| 0 <= j < i && #[trigger] entries[j].name@ == entries[i].name@
}

/// The problem with image `i`, if any, as whether its name repeats an earlier one
/// and the text reported: a name already used, no sample points, or a target size
/// that is not positive, checked in that order.
pub open spec fn entry_problem(entries: Seq<ImageEntry>, i: int) -> Option<(bool, Seq<char>)> {
    if name_seen_before(entries, i) {
        Some((true, entries[i].name@))
    } else if entries[i].num_points_sample == 0 {
        Some((false, no_points_message(entries[i].name@)))
    } else if !entries[i].target_size_positive {
        Some((false, bad_size_message(entries[i].name@)))
    } else {
        None
    }
}

/// No image before position `n` has a problem.
pub open spec fn sound_upto(entries: Seq<ImageEntry>, n: int) -> bool {
    forall|i: int| 0 <= i < n ==> #[trigger] entry_problem(entries, i) is None
}

/// The error reported for a problem: a repeated name as `DuplicateName` with the
/// name, anything else as `InvalidValue` with its text.
pub open spec fn error_matches(e: ConfigError, expected: (bool, Seq<char>)) -> bool {
    match e {
        ConfigError::DuplicateName(name) => expected.0 && name@ == expected.1,
        ConfigError::InvalidValue(msg) => !expected.0 && msg@ == expected.1,
        _ => false,
    }
}

/// Images `a` and `b` carry the same name.
pub open spec fn same_name(entries: Seq<ImageEntry>, a: int, b: int) -> bool {
    entries[a].name@ == entries[b].name@
}

/// No two of the images before position `n` carry the same name.
pub open spec fn names_distinct_upto(entries: Seq<ImageEntry>, n: int) -> bool {
    forall|a: int, b: int| 0 <= a < b < n ==> !#[trigger] same_name(entries, a, b)
}

/// Every image before position `n` samples points and has a positive target size.
pub open spec fn values_valid_upto(entries: Seq<ImageEntry>, n: int) -> bool {
    forall|k: int|
        0 <= k < n ==> (#[trigger] entries[k]).num_points_sample != 0
            && entries[k].target_size_positive
}

/// Images without a problem up to `n` carry pairwise different names.
pub proof fn lemma_sound_names_distinct(entries: Seq<ImageEntry>, n: int)
    requires
        n <= entries.len(),
        sound_upto(entries, n),
    ensures
        names_distinct_upto(entries, n),
        values_valid_upto(entries, n),
{
    assert forall|a: int, b: int| 0 <= a < b < n implies !#[trigger] same_name(entries, a, b) by {
        assert(entry_problem(entries, b) is None);
        if same_name(entries, a, b) {
            assert(name_seen_before(entries, b));
        }
    }
    assert forall|k: int| 0 <= k < n implies (#[trigger] entries[k]).num_points_sample != 0
        && entries[k].target_size_positive by {
        assert(entry_problem(entries, k) is None);
    }
}

/// Images before `b` with distinct names that are otherwise valid have no problem.
proof fn lemma_clean_prefix(entries: Seq<ImageEntry>, b: int)
    requires
        0 <= b <= entries.len(),
        names_distinct_upto(entries, b),
        values_valid_upto(entries, b),
    ensures
        sound_upto(entries, b),
{
    assert forall|k: int| 0 <= k < b implies #[trigger] entry_problem(entries, k) is None by {
        if name_seen_before(entries, k) {
            let j = choose|j: int| 0 <= j < k && #[trigger] entries[j].name@ == entries[k].name@;
            assert(same_name(entries, j, k));
        }
        assert(entries[k].num_points_sample != 0 && entries[k].target_size_positive);
    }
}

/// Only the first image with a problem is one before which no image has a problem.
proof fn lemma_first_problem_unique(entries: Seq<ImageEntry>, b: int)
    requires
        0 <= b < entries.len(),
        sound_upto(entries, b),
        entry_problem(entries, b) is Some,
    ensures
        forall|i: int|
            0 <= i < entries.len() && sound_upto(entries, i) && (#[trigger] entry_problem(
                entries,
                i,
            )) is Some ==> i == b,
{
    assert forall|i: int|
        0 <= i < entries.len() && sound_upto(entries, i) && (#[trigger] entry_problem(
            entries,
            i,
        )) is Some implies i == b by {
        if i < b {
            assert(entry_problem(entries, i) is None);
        } else if i > b {
            assert(entry_problem(entries, b) is None);
        }
    }
}

/// When image `b` is the first whose name repeats an earlier one (that of image
/// `a`), and every image before it is otherwise valid, image `b` is the first
/// with a problem, and that problem is its repeated name.
pub proof fn lemma_first_duplicate(entries: Seq<ImageEntry>, a: int, b: int)
    requires
        0 <= a < b < entries.len(),
        same_name(entries, a, b),
        names_distinct_upto(entries, b),
        values_valid_upto(entries, b),
    ensures
        sound_upto(entries, b),
        entry_problem(entries, b) == Some((true, entries[b].name@)),
        forall|i: int|
            0 <= i < entries.len() && sound_upto(entries, i) && (#[trigger] entry_problem(
                entries,
                i,
            )) is Some ==> i == b,
{
    lemma_clean_prefix(entries, b);
    assert(entries[a].name@ == entries[b].name@);
    assert(name_seen_before(entries, b));
    lemma_first_problem_unique(entries, b);
}

/// When the images up to `b` carry distinct names and those before `b` are
/// valid, while image `b` samples no points or has a target size that is not
/// positive, image `b` is the first with a problem, reported by the text for the
/// first of those two checks that fails.
pub proof fn lemma_first_invalid_value(entries: Seq<ImageEntry>, b: int)
    requires
        0 <= b < entries.len(),
        names_distinct_upto(entries, b + 1),
        values_valid_upto(entries, b),
        entries[b].num_points_sample == 0 || !entries[b].target_size_positive,
    ensures
        sound_upto(entries, b),
        entry_problem(entries, b) == Some(
            (
                false,
                if entries[b].num_points_sample == 0 {
                    no_points_message(entries[b].name@)
                } else {
                    bad_size_message(entries[b].name@)
                },
            ),
        ),
        forall|i: int|
            0 <= i < entries.len() && sound_upto(entries, i) && (#[trigger] entry_problem(
                entries,
                i,
            )) is Some ==> i == b,
{
    assert(names_distinct_upto(entries, b)) by {
        assert forall|x: int, y: int| 0 <= x < y < b implies !#[trigger] same_name(entries, x, y) by {
            assert(!same_name(entries, x, y));
        }
    }
    lemma_clean_prefix(entries, b);
    if name_seen_before(entries, b) {
        let j = choose|j: int| 0 <= j < b && #[trigger] entries[j].name@ == entries[b].name@;
        assert(same_name(entries, j, b));
    }
    lemma_first_problem_unique(entries, b);
}

/// The error reported for the first image with a problem is the one the image
/// that first repeats a name, or that first has an invalid value, calls for.
proof fn lemma_problem_reported(entries: Seq<ImageEntry>, i: int, e: ConfigError)
    requires
        0 <= i < entries.len(),
        sound_upto(entries, i),
        entry_problem(entries, i) is Some,
        error_matches(e, entry_problem(entries, i)->0),
    ensures
        forall|a: int, b: int|
            0 <= a < b < entries.len() && #[trigger] same_name(entries, a, b)
                && names_distinct_upto(entries, b) && values_valid_upto(entries, b) ==> (
            e matches ConfigError::DuplicateName(n) && n@ == entries[b].name@),
        forall|b: int|
            0 <= b < entries.len() && names_distinct_upto(entries, b + 1) && values_valid_upto(
                entries,
                b,
            ) && (#[trigger] entries[b]).num_points_sample == 0 ==> (
            e matches ConfigError::InvalidValue(m) && m@ == no_points_message(entries[b].name@)),
        forall|b: int|
            0 <= b < entries.len() && names_distinct_upto(entries, b + 1) && values_valid_upto(
                entries,
                b,
            ) && (#[trigger] entries[b]).num_points_sample != 0 && !entries[b].target_size_positive
                ==> (e matches ConfigError::InvalidValue(m) && m@ == bad_size_message(
                entries[b].name@,
            )),
{
    assert forall|a: int, b: int|
        0 <= a < b < entries.len() && #[trigger] same_name(entries, a, b)
            && names_distinct_upto(entries, b) && values_valid_upto(entries, b) implies (
        e matches ConfigError::DuplicateName(n) && n@ == entries[b].name@) by {
        lemma_first_duplicate(entries, a, b);
        assert(i == b);
    }
    assert forall|b: int|
        0 <= b < entries.len() && names_distinct_upto(entries, b + 1) && values_valid_upto(
            entries,
            b,
        ) && (#[trigger] entries[b]).num_points_sample == 0 implies (
        e matches ConfigError::InvalidValue(m) && m@ == no_points_message(entries[b].name@)) by {
        lemma_first_invalid_value(entries, b);
        assert(i == b);
    }
    assert forall|b: int|
        0 <= b < entries.len() && names_distinct_upto(entries, b + 1) && values_valid_upto(
            entries,
            b,
        ) && (#[trigger] entries[b]).num_points_sample != 0 && !entries[b].target_size_positive
            implies (e matches ConfigError::InvalidValue(m) && m@ == bad_size_message(
        entries[b].name@,
    )) by {
        lemma_first_invalid_value(entries, b);
        assert(i == b);
    }
}

/// Checks the images in order and reports the first problem: a name used by an
/// earlier image, no sample points, or a target size that is not positive.
/// Success means that all names differ and all values are valid; when image `b`
/// is the first to repeat an earlier name and the images before it are otherwise
/// valid, the error is `DuplicateName` with that name, and when image `b` is the
/// first with an invalid value (names distinct so far) the error is
/// `InvalidValue` with the text for its first failing check.
pub fn validate_images(entries: &Vec<ImageEntry>) -> (result: Result<(), ConfigError>)
    ensures
        result is Ok <==> sound_upto(entries@, entries@.len() as int),
        result matches Err(e) ==> exists|i: int|
            0 <= i < entries@.len() && sound_upto(entries@, i) && (#[trigger] entry_problem(
                entries@,
                i,
            )) is Some && error_matches(e, entry_problem(entries@, i)->0),
        result is Ok ==> names_distinct_upto(entries@, entries@.len() as int)
            && values_valid_upto(entries@, entries@.len() as int),
        forall|a: int, b: int|
            0 <= a < b < entries@.len() && #[trigger] same_name(entries@, a, b)
                && names_distinct_upto(entries@, b) && values_valid_upto(entries@, b) ==> (
            result matches Err(ConfigError::DuplicateName(n)) && n@ == entries@[b].name@),
        forall|b: int|
            0 <= b < entries@.len() && names_distinct_upto(entries@, b + 1) && values_valid_upto(
                entries@,
                b,
            ) && (#[trigger] entries@[b]).num_points_sample == 0 ==> (
            result matches Err(ConfigError::InvalidValue(m)) && m@ == no_points_message(
                entries@[b].name@,
            )),
        forall|b: int|
            0 <= b < entries@.len() && names_distinct_upto(entries@, b + 1) && values_valid_upto(
                entries@,
                b,
            ) && (#[trigger] entries@[b]).num_points_sample != 0 && !entries@[b].target_size_positive
                ==> (result matches Err(ConfigError::InvalidValue(m)) && m@ == bad_size_message(
                entries@[b].name@,
            )),
{
    let mut i: usize = 0;
    while i < entries.len()
        invariant
            i <= entries@.len(),
            sound_upto(entries@, i as int),
        decreases entries@.len() - i,
    {
        let img = &entries[i];
        let mut j: usize = 0;
        while j < i
            invariant
                j <= i,
                i < entries@.len(),
                img == entries@[i as int],
                sound_upto(entries@, i as int),
                forall|k: int| 0 <= k < j ==> entries@[k].name@ != img.name@,
            decreases i - j,
        {
            if entries[j].name == img.name {
                proof {
                    assert(name_seen_before(entries@, i as int));
                    assert(entry_problem(entries@, i as int) == Some((true, img.name@)));
                }
                let e = ConfigError::DuplicateName(img.name.clone());
                proof {
                    assert(error_matches(e, entry_problem(entries@, i as int)->0));
                    lemma_problem_reported(entries@, i as int, e);
                }
                return Err(e);
            }
            j = j + 1;
        }
        proof {
            assert(!name_seen_before(entries@, i as int));
        }
        if img.num_points_sample == 0 {
            let mut msg = String::from_str("num_points must be > 0 for image '");
            msg.append(img.name.as_str());
            msg.append("'");
            proof {
                assert(entry_problem(entries@, i as int) == Some((false, no_points_message(img.name@))));
            }
            let e = ConfigError::InvalidValue(msg);
            proof {
                assert(error_matches(e, entry_problem(entries@, i as int)->0));
                lemma_problem_reported(entries@, i as int, e);
            }
            return Err(e);
        }
        if !img.target_size_positive {
            let mut msg = String::from_str("target_size must be > 0.0 for image '");
            msg.append(img.name.as_str());
            msg.append("'");
            proof {
                assert(entry_problem(entries@, i as int) == Some((false, bad_size_message(img.name@))));
            }
            let e = ConfigError::InvalidValue(msg);
            proof {
                assert(error_matches(e, entry_problem(entries@, i as int)->0));
                lemma_problem_reported(entries@, i as int, e);
            }
            return Err(e);
        }
        proof {
            assert(entry_problem(entries@, i as int) is None);
        }
        i = i + 1;
    }
    proof {
        lemma_sound_names_distinct(entries@, entries@.len() as int);
        assert forall|a: int, b: int|
            0 <= a < b < entries@.len() && #[trigger] same_name(entries@, a, b)
                && names_distinct_upto(entries@, b) && values_valid_upto(entries@, b) implies false by {
            lemma_first_duplicate(entries@, a, b);
        }
        assert forall|b: int|
            0 <= b < entries@.len() && names_distinct_upto(entries@, b + 1) && values_valid_upto(
                entries@,
                b,
            ) && (#[trigger] entries@[b]).num_points_sample == 0 implies false by {
            lemma_first_invalid_value(entries@, b);
        }
        assert forall|b: int|
            0 <= b < entries@.len() && names_distinct_upto(entries@, b + 1) && values_valid_upto(
                entries@,
                b,
            ) && (#[trigger] entries@[b]).num_points_sample != 0 && !entries@[b].target_size_positive
                implies false by {
            lemma_first_invalid_value(entries@, b);
        }
    }
    Ok(())
}

/// The position of the first image with the given name.
pub fn find_image_index(entries: &Vec<ImageEntry>, name: &str) -> (found: Option<usize>)
    ensures
        match found {
            Some(k) => k < entries@.len() && entries@[k as int].name@ == name@ && forall|j: int|
                0 <= j < k ==> #[trigger] entries@[j].name@ != name@,
            None => forall|j: int| 0 <= j < entries@.len() ==> #[trigger] entries@[j].name@ != name@,
        },
{
    let wanted = String::from_str(name);
    let mut k: usize = 0;
    while k < entries.len()
        invariant
            k <= entries@.len(),
            wanted@ == name@,
            forall|j: int| 0 <= j < k ==> #[trigger] entries@[j].name@ != name@,
        decreases entries@.len() - k,
    {
        if entries[k].name == wanted {
            return Some(k);
        }
        k = k + 1;
    }
    None
}

} // verus!
