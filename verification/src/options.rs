//! Run options: the data files of a named data set.

use vstd::prelude::*;
use vstd::string::StringExecFns;

verus! {

/// File locations and the smallest clique size of one run.
#[derive(Debug)]
pub struct Options {
    pub ppi_file: String,
    pub clique_file: String,
    pub label_file: String,
    pub min_size: usize,
}

impl Options {
    /// Options for the data set of the given name: its files live under a
    /// directory of that name, named after it.
    pub fn new(data_name: &str) -> (r: Options)
        ensures
            r.ppi_file@ == "./data/"@ + data_name@ + "/"@ + data_name@ + ".txt"@,
            r.clique_file@ == "./data/"@ + data_name@ + "/"@ + data_name@ + "_clique.txt"@,
            r.label_file@ == "./data/"@ + data_name@ + "/"@ + data_name@ + "_label.txt"@,
            r.min_size == 3,
    {
        let mut ppi_file = String::from_str("./data/");
        ppi_file.append(data_name);
        ppi_file.append("/");
        ppi_file.append(data_name);
        let mut clique_file = ppi_file.clone();
        let mut label_file = ppi_file.clone();
        ppi_file.append(".txt");
        clique_file.append("_clique.txt");
        label_file.append("_label.txt");
        proof {
            assert(ppi_file@ =~= "./data/"@ + data_name@ + "/"@ + data_name@ + ".txt"@);
            assert(clique_file@ =~= "./data/"@ + data_name@ + "/"@ + data_name@ + "_clique.txt"@);
            assert(label_file@ =~= "./data/"@ + data_name@ + "/"@ + data_name@ + "_label.txt"@);
        }
        Options { ppi_file, clique_file, label_file, min_size: 3 }
    }
}

impl Default for Options {
    /// The options of the collins data set: its three files under the
    /// collins directory, and the smallest reported clique size.
    fn default() -> (r: Options)
        ensures
            r.ppi_file@ == "./data/"@ + "collins"@ + "/"@ + "collins"@ + ".txt"@,
            r.clique_file@ == "./data/"@ + "collins"@ + "/"@ + "collins"@ + "_clique.txt"@,
            r.label_file@ == "./data/"@ + "collins"@ + "/"@ + "collins"@ + "_label.txt"@,
            r.min_size == 3,
    {
        Options::new("collins")
    }
}

} // verus!
