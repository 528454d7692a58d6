//! Making a new manifest: the rules for what the user may enter.

use crate::package::name::byte_len;
use crate::text::str_equal;
use vstd::prelude::*;
use vstd::string::*;

verus! {

/// The licenses that a package may have, by their SPDX identifiers.
pub open spec fn approved_licenses() -> Seq<Seq<char>> {
    seq![
        "AFL-1.1"@,
        "AFL-1.2"@,
        "AFL-2.0"@,
        "AFL-2.1"@,
        "AFL-3.0"@,
        "APL-1.0"@,
        "Apache-1.1"@,
        "Apache-2.0"@,
        "APSL-1.0"@,
        "APSL-1.1"@,
        "APSL-1.2"@,
        "APSL-2.0"@,
        "Artistic-1.0"@,
        "Artistic-1.0-Perl"@,
        "Artistic-1.0-cl8"@,
        "Artistic-2.0"@,
        "AAL"@,
        "BSL-1.0"@,
        "BSD-2-Clause"@,
        "BSD-3-Clause"@,
        "0BSD"@,
        "CECILL-2.1"@,
        "CNRI-Python"@,
        "CDDL-1.0"@,
        "CPAL-1.0"@,
        "CPL-1.0"@,
        "CATOSL-1.1"@,
        "CUA-OPL-1.0"@,
        "EPL-1.0"@,
        "ECL-1.0"@,
        "ECL-2.0"@,
        "EFL-1.0"@,
        "EFL-2.0"@,
        "Entessa"@,
        "EUDatagrid"@,
        "EUPL-1.1"@,
        "Fair"@,
        "Frameworx-1.0"@,
        "AGPL-3.0"@,
        "GPL-2.0"@,
        "GPL-3.0"@,
        "LGPL-2.1"@,
        "LGPL-3.0"@,
        "LGPL-2.0"@,
        "HPND"@,
        "IPL-1.0"@,
        "Intel"@,
        "IPA"@,
        "ISC"@,
        "LPPL-1.3c"@,
        "LiLiQ-P-1.1"@,
        "LiLiQ-Rplus-1.1"@,
        "LiLiQ-R-1.1"@,
        "LPL-1.02"@,
        "LPL-1.0"@,
        "MS-PL"@,
        "MS-RL"@,
        "MirOS"@,
        "MIT"@,
        "Motosoto"@,
        "MPL-1.0"@,
        "MPL-1.1"@,
        "MPL-2.0"@,
        "MPL-2.0-no-copyleft-exception"@,
        "Multics"@,
        "NASA-1.3"@,
        "Naumen"@,
        "NGPL"@,
        "Nokia"@,
        "NPOSL-3.0"@,
        "NTP"@,
        "OCLC-2.0"@,
        "OGTSL"@,
        "OSL-1.0"@,
        "OSL-2.0"@,
        "OSL-2.1"@,
        "OSL-3.0"@,
        "OSET-PL-2.1"@,
        "PHP-3.0"@,
        "PostgreSQL"@,
        "Python-2.0"@,
        "QPL-1.0"@,
        "RPSL-1.0"@,
        "RPL-1.1"@,
        "RPL-1.5"@,
        "RSCPL"@,
        "OFL-1.1"@,
        "SimPL-2.0"@,
        "Sleepycat"@,
        "SISSL"@,
        "SPL-1.0"@,
        "Watcom-1.0"@,
        "UPL-1.0"@,
        "NCSA"@,
        "VSL-1.0"@,
        "W3C"@,
        "Xnet"@,
        "Zlib"@,
        "ZPL-2.0"@,
    ]
}

/// The views of a list of texts.
pub open spec fn texts(list: Seq<&'static str>) -> Seq<Seq<char>> {
    list.map_values(|s: &'static str| s@)
}

/// The licenses that a package may have, by their SPDX identifiers.
pub fn licenses() -> (list: Vec<&'static str>)
    ensures
        texts(list@) == approved_licenses(),
{
    let list = vec![
        "AFL-1.1",
        "AFL-1.2",
        "AFL-2.0",
        "AFL-2.1",
        "AFL-3.0",
        "APL-1.0",
        "Apache-1.1",
        "Apache-2.0",
        "APSL-1.0",
        "APSL-1.1",
        "APSL-1.2",
        "APSL-2.0",
        "Artistic-1.0",
        "Artistic-1.0-Perl",
        "Artistic-1.0-cl8",
        "Artistic-2.0",
        "AAL",
        "BSL-1.0",
        "BSD-2-Clause",
        "BSD-3-Clause",
        "0BSD",
        "CECILL-2.1",
        "CNRI-Python",
        "CDDL-1.0",
        "CPAL-1.0",
        "CPL-1.0",
        "CATOSL-1.1",
        "CUA-OPL-1.0",
        "EPL-1.0",
        "ECL-1.0",
        "ECL-2.0",
        "EFL-1.0",
        "EFL-2.0",
        "Entessa",
        "EUDatagrid",
        "EUPL-1.1",
        "Fair",
        "Frameworx-1.0",
        "AGPL-3.0",
        "GPL-2.0",
        "GPL-3.0",
        "LGPL-2.1",
        "LGPL-3.0",
        "LGPL-2.0",
        "HPND",
        "IPL-1.0",
        "Intel",
        "IPA",
        "ISC",
        "LPPL-1.3c",
        "LiLiQ-P-1.1",
        "LiLiQ-Rplus-1.1",
        "LiLiQ-R-1.1",
        "LPL-1.02",
        "LPL-1.0",
        "MS-PL",
        "MS-RL",
        "MirOS",
        "MIT",
        "Motosoto",
        "MPL-1.0",
        "MPL-1.1",
        "MPL-2.0",
        "MPL-2.0-no-copyleft-exception",
        "Multics",
        "NASA-1.3",
        "Naumen",
        "NGPL",
        "Nokia",
        "NPOSL-3.0",
        "NTP",
        "OCLC-2.0",
        "OGTSL",
        "OSL-1.0",
        "OSL-2.0",
        "OSL-2.1",
        "OSL-3.0",
        "OSET-PL-2.1",
        "PHP-3.0",
        "PostgreSQL",
        "Python-2.0",
        "QPL-1.0",
        "RPSL-1.0",
        "RPL-1.1",
        "RPL-1.5",
        "RSCPL",
        "OFL-1.1",
        "SimPL-2.0",
        "Sleepycat",
        "SISSL",
        "SPL-1.0",
        "Watcom-1.0",
        "UPL-1.0",
        "NCSA",
        "VSL-1.0",
        "W3C",
        "Xnet",
        "Zlib",
        "ZPL-2.0",
    ];
    proof {
        assert(texts(list@) =~= approved_licenses());
    }
    list
}

/// Whether `license` is one of the licenses that a package may have.
pub fn approved_license(license: &str) -> (r: bool)
    ensures
        r == approved_licenses().contains(license@),
{
    let list = licenses();
    let n = list.len();
    let mut i: usize = 0;
    while i < n
        invariant
            i <= n,
            n == list@.len(),
            texts(list@) == approved_licenses(),
            forall|k: int| 0 <= k < i ==> approved_licenses()[k] != license@,
        decreases n - i,
    {
        proof {
            assert(texts(list@)[i as int] == list@[i as int]@);
        }
        if str_equal(list[i], license) {
            return true;
        }
        i += 1;
    }
    false
}

/// Whether a summary is short enough for a manifest: 80 bytes at most.
pub fn valid_summary(summary: &str) -> (r: bool)
    ensures
        r == (byte_len(summary@) <= 80),
{
    summary.as_bytes().len() <= 80
}

} // verus!
