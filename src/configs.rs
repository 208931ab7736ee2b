use vstd::prelude::*;

verus! {

/// Command-line configuration: the path of the input file.
#[derive(Debug)]
pub struct Config {
    infile: String,
}

impl Config {
    pub closed spec fn spec_infile(&self) -> Seq<char> {
        self.infile@
    }

    /// Builds the configuration from the program's arguments, the first being the program
    /// name; the second is the input path. Fails when it is missing.
    pub fn build(args: Vec<String>) -> (r: Result<Config, String>)
        ensures
            args.len() >= 2 <==> r is Ok,
            r matches Ok(c) ==> c.spec_infile() == args@[1]@,
    {
        if args.len() < 2 {
            return Err("Should have argument with input file path".to_string());
        }
        let infile = args[1].clone();
        Ok(Config { infile })
    }

    pub fn infile(&self) -> (r: &str)
        ensures
            r@ == self.spec_infile(),
    {
        self.infile.as_str()
    }
}

} // verus!
