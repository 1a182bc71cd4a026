//! Observers of the pipeline's intermediate results, and the naming of the files
//! in which a file observer keeps them.

use vstd::prelude::*;
use std::path::PathBuf;

verus! {

#[verifier::external_type_specification]
#[verifier::external_body]
pub struct ExPathBuf(std::path::PathBuf);

/// An observer that keeps nothing.
pub struct NoOpObserver;

/// An observer that saves each intermediate result as a numbered image file in
/// `output_dir`, named after the image and the step.
pub struct FileObserver {
    output_dir: PathBuf,
    image_name: String,
    step_counter: usize,
}

/// The decimal digit `d`.
pub open spec fn digit_char(d: int) -> char {
    if d == 0 {
        '0'
    } else if d == 1 {
        '1'
    } else if d == 2 {
        '2'
    } else if d == 3 {
        '3'
    } else if d == 4 {
        '4'
    } else if d == 5 {
        '5'
    } else if d == 6 {
        '6'
    } else if d == 7 {
        '7'
    } else if d == 8 {
        '8'
    } else {
        '9'
    }
}

/// The decimal notation of `n`, without leading zeros.
pub open spec fn decimal_text(n: nat) -> Seq<char>
    decreases n,
{
    if n < 10 {
        seq![digit_char(n as int)]
    } else {
        decimal_text(n / 10).push(digit_char((n % 10) as int))
    }
}

/// The file name of step `step` named `name` of image `image`: `image_step_name.png`.
pub open spec fn step_file_name(image: Seq<char>, step: nat, name: Seq<char>) -> Seq<char> {
    image + "_"@ + decimal_text(step) + "_"@ + name + ".png"@
}

/// The decimal notation of `n`.
pub fn decimal_string(n: usize) -> (s: String)
    ensures
        s@ == decimal_text(n as nat),
    decreases n,
{
    let digits = "0123456789";
    proof {
        reveal_strlit("0123456789");
        assert(digits@ =~= seq!['0', '1', '2', '3', '4', '5', '6', '7', '8', '9']);
    }
    let d = n % 10;
    let last = digits.substring_char(d, d + 1);
    proof {
        assert(last@ =~= seq![digit_char(d as int)]);
    }
    if n < 10 {
        String::from_str(last)
    } else {
        let mut s = decimal_string(n / 10);
        let ghost front = s@;
        s.append(last);
        proof {
            assert(s@ =~= front.push(digit_char(d as int)));
        }
        s
    }
}

impl FileObserver {
    /// The directory the files are written to.
    pub closed spec fn dir(&self) -> PathBuf {
        self.output_dir
    }

    /// The image name the files are named after.
    pub closed spec fn name(&self) -> Seq<char> {
        self.image_name@
    }

    /// How many steps have been named so far.
    pub closed spec fn steps(&self) -> nat {
        self.step_counter as nat
    }

    /// A new observer for image `image_name`, writing to `output_dir`, at step 0.
    pub fn new(output_dir: PathBuf, image_name: String) -> (observer: Self)
        ensures
            observer.dir() == output_dir,
            observer.name() == image_name@,
            observer.steps() == 0,
    {
        FileObserver { output_dir, image_name, step_counter: 0 }
    }

    /// The directory the files are written to.
    pub fn output_dir(&self) -> (dir: &PathBuf)
        ensures
            *dir == self.dir(),
    {
        &self.output_dir
    }

    /// How many steps have been named so far.
    pub fn steps_taken(&self) -> (n: usize)
        ensures
            n == self.steps(),
    {
        self.step_counter
    }

    /// Counts one more step and gives the name of the file it is saved in:
    /// the image name, the step number and the step's name, joined by `_`, with
    /// the extension `.png`.
    pub fn next_file_name(&mut self, name: &str) -> (file: String)
        requires
            old(self).steps() < usize::MAX,
        ensures
            final(self).steps() == old(self).steps() + 1,
            final(self).dir() == old(self).dir(),
            final(self).name() == old(self).name(),
            file@ == step_file_name(old(self).name(), final(self).steps(), name@),
    {
        self.step_counter = self.step_counter + 1;
        let mut file = self.image_name.clone();
        file.append("_");
        let number = decimal_string(self.step_counter);
        file.append(number.as_str());
        file.append("_");
        file.append(name);
        file.append(".png");
        file
    }
}

/// The colour (red, green, blue) in which the `i`-th component is drawn: ten
/// colours in turn.
pub open spec fn palette_color(i: int) -> (u8, u8, u8) {
    let k = i % 10;
    if k == 0 {
        (255, 0, 0)
    } else if k == 1 {
        (0, 255, 0)
    } else if k == 2 {
        (0, 0, 255)
    } else if k == 3 {
        (255, 255, 0)
    } else if k == 4 {
        (255, 0, 255)
    } else if k == 5 {
        (0, 255, 255)
    } else if k == 6 {
        (255, 128, 0)
    } else if k == 7 {
        (128, 0, 255)
    } else if k == 8 {
        (0, 255, 128)
    } else {
        (255, 128, 128)
    }
}

/// The colour in which the `i`-th component is drawn.
pub fn component_color(i: usize) -> (rgb: (u8, u8, u8))
    ensures
        rgb == palette_color(i as int),
{
    let colors: [(u8, u8, u8); 10] = [
        (255, 0, 0),
        (0, 255, 0),
        (0, 0, 255),
        (255, 255, 0),
        (255, 0, 255),
        (0, 255, 255),
        (255, 128, 0),
        (128, 0, 255),
        (0, 255, 128),
        (255, 128, 128),
    ];
    let k = i % 10;
    colors[k]
}

} // verus!
