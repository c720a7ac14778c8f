//! First-run seeding of programs: the program table, and which deployables
//! each program takes in, matched by keywords in their names.

use vstd::prelude::*;
use crate::text::{contains_seq, contains_str, lowercase, to_lower};

verus! {

/// A program to seed, with the name keywords that draw deployables into it.
#[derive(Debug, Clone)]
pub struct ProgramSeed {
    pub name: &'static str,
    pub description: &'static str,
    pub leadership: &'static str,
    pub color: &'static str,
    pub keywords: Vec<&'static str>,
}

/// A program's fields as character sequences: name, description,
/// leadership, color and keywords.
pub open spec fn program_view(p: ProgramSeed) -> (Seq<char>, Seq<char>, Seq<char>, Seq<char>, Seq<Seq<char>>) {
    (p.name@, p.description@, p.leadership@, p.color@, p.keywords@.map_values(|k: &'static str| k@))
}

/// The programs seeded on first run, in order.
pub open spec fn program_table() -> Seq<(Seq<char>, Seq<char>, Seq<char>, Seq<char>, Seq<Seq<char>>)> {
    seq![
        ("STREAMS"@, "Customer-facing apps and integrations \u{2014} portal, mobile, tracking, public API."@,
            "CIDO, Customer Experience"@, "#2563eb"@,
            seq!["Customer Portal"@, "Tracking"@, "Mobile"@, "Customer Gateway"@, "Customer API"@, "Email Service"@, "Notification"@]),
        ("GBE"@, "General business engineering \u{2014} dispatch, driver ops, fleet, warehouse."@,
            "CIDO, Operations"@, "#16a34a"@,
            seq!["Dispatch"@, "Driver"@, "Fleet"@, "Warehouse"@, "Route"@, "Carrier"@, "SMS"@]),
        ("DERMS"@, "Data, ETL, analytics, audit \u{2014} the read side of the freight business."@,
            "CIDO, Data & Analytics"@, "#f59e0b"@,
            seq!["ETL"@, "Analytics"@, "Audit"@, "Geocoding"@, "Data "@]),
        ("Kraken"@, "Platform \u{2014} auth, config, file storage, event bus, the bedrock everything sits on."@,
            "CIDO, Platform"@, "#7c3aed"@,
            seq!["Auth"@, "Config"@, "File Storage"@, "Event Bus"@, "OMS Event"@]),
        ("NextGen ERP"@, "Order management and invoicing \u{2014} the new ERP replacing Legacy CRM."@,
            "CIDO, ERP"@, "#dc2626"@,
            seq!["Order Management"@, "OMS REST"@, "Invoice"@, "Legacy CRM"@, "Customs"@]),
    ]
}

/// The programs seeded on first run.
pub fn programs() -> (p: Vec<ProgramSeed>)
    ensures
        p@.map_values(|x: ProgramSeed| program_view(x)) == program_table(),
{
    let mut p: Vec<ProgramSeed> = Vec::new();
    p.push(ProgramSeed {
        name: "STREAMS",
        description: "Customer-facing apps and integrations \u{2014} portal, mobile, tracking, public API.",
        leadership: "CIDO, Customer Experience",
        color: "#2563eb",
        keywords: vec!["Customer Portal", "Tracking", "Mobile", "Customer Gateway", "Customer API", "Email Service", "Notification"],
    });
    p.push(ProgramSeed {
        name: "GBE",
        description: "General business engineering \u{2014} dispatch, driver ops, fleet, warehouse.",
        leadership: "CIDO, Operations",
        color: "#16a34a",
        keywords: vec!["Dispatch", "Driver", "Fleet", "Warehouse", "Route", "Carrier", "SMS"],
    });
    p.push(ProgramSeed {
        name: "DERMS",
        description: "Data, ETL, analytics, audit \u{2014} the read side of the freight business.",
        leadership: "CIDO, Data & Analytics",
        color: "#f59e0b",
        keywords: vec!["ETL", "Analytics", "Audit", "Geocoding", "Data "],
    });
    p.push(ProgramSeed {
        name: "Kraken",
        description: "Platform \u{2014} auth, config, file storage, event bus, the bedrock everything sits on.",
        leadership: "CIDO, Platform",
        color: "#7c3aed",
        keywords: vec!["Auth", "Config", "File Storage", "Event Bus", "OMS Event"],
    });
    p.push(ProgramSeed {
        name: "NextGen ERP",
        description: "Order management and invoicing \u{2014} the new ERP replacing Legacy CRM.",
        leadership: "CIDO, ERP",
        color: "#dc2626",
        keywords: vec!["Order Management", "OMS REST", "Invoice", "Legacy CRM", "Customs"],
    });
    assert(p@[0].keywords@.map_values(|k: &'static str| k@) =~= program_table()[0].4);
    assert(p@[1].keywords@.map_values(|k: &'static str| k@) =~= program_table()[1].4);
    assert(p@[2].keywords@.map_values(|k: &'static str| k@) =~= program_table()[2].4);
    assert(p@[3].keywords@.map_values(|k: &'static str| k@) =~= program_table()[3].4);
    assert(p@[4].keywords@.map_values(|k: &'static str| k@) =~= program_table()[4].4);
    assert(p@.map_values(|x: ProgramSeed| program_view(x)) =~= program_table());
    p
}

/// A deployable named `name` belongs to a program with these keywords:
/// some keyword occurs in the name, case ignored.
pub open spec fn matches_program(name: Seq<char>, keywords: Seq<&'static str>) -> bool {
    exists|k: int| 0 <= k < keywords.len() && contains_seq(lowercase(name), lowercase(#[trigger] keywords[k]@))
}

/// The memberships of the first `i` deployables: for each, in order, the
/// programs (by position) it belongs to, in program order.
pub open spec fn memberships_upto(
    deployables: Seq<(String, String)>,
    programs: Seq<ProgramSeed>,
    i: int,
) -> Seq<(usize, Seq<char>)>
    decreases i,
{
    if i <= 0 {
        Seq::empty()
    } else {
        memberships_upto(deployables, programs, i - 1) + memberships_of(deployables[i - 1], programs, programs.len() as int)
    }
}

/// The memberships of one (id, name) deployable among the first `j`
/// programs.
pub open spec fn memberships_of(d: (String, String), programs: Seq<ProgramSeed>, j: int) -> Seq<(usize, Seq<char>)>
    decreases j,
{
    if j <= 0 {
        Seq::empty()
    } else if matches_program(d.1@, programs[j - 1].keywords@) {
        memberships_of(d, programs, j - 1).push(((j - 1) as usize, d.0@))
    } else {
        memberships_of(d, programs, j - 1)
    }
}

/// Which programs each (id, name) deployable joins: a membership (program
/// position, deployable id) whenever one of the program's keywords occurs
/// in the deployable's name, ignoring case.
pub fn seed_memberships(deployables: &Vec<(String, String)>, programs: &Vec<ProgramSeed>) -> (m: Vec<(usize, String)>)
    ensures
        m@.map_values(|x: (usize, String)| (x.0, x.1@)) == memberships_upto(deployables@, programs@, deployables@.len() as int),
{
    let mut m: Vec<(usize, String)> = Vec::new();
    let mut i: usize = 0;
    while i < deployables.len()
        invariant
            i <= deployables@.len(),
            m@.map_values(|x: (usize, String)| (x.0, x.1@)) == memberships_upto(deployables@, programs@, i as int),
        decreases deployables@.len() - i,
    {
        let d = &deployables[i];
        let name = to_lower(d.1.as_str());
        let ghost m0 = m@.map_values(|x: (usize, String)| (x.0, x.1@));
        let mut j: usize = 0;
        while j < programs.len()
            invariant
                j <= programs@.len(),
                i < deployables@.len(),
                *d == deployables@[i as int],
                name@ == lowercase(d.1@),
                m@.map_values(|x: (usize, String)| (x.0, x.1@)) == m0 + memberships_of(*d, programs@, j as int),
            decreases programs@.len() - j,
        {
            let kws = &programs[j].keywords;
            let mut hit = false;
            let mut k: usize = 0;
            while k < kws.len()
                invariant
                    k <= kws@.len(),
                    name@ == lowercase(d.1@),
                    hit <==> exists|q: int| 0 <= q < k && contains_seq(lowercase(d.1@), lowercase(#[trigger] kws@[q]@)),
                decreases kws@.len() - k,
            {
                let kw = to_lower(kws[k]);
                if contains_str(name.as_str(), kw.as_str()) {
                    hit = true;
                }
                k = k + 1;
            }
            if hit {
                let ghost before = m@.map_values(|x: (usize, String)| (x.0, x.1@));
                m.push((j, d.0.clone()));
                assert(m@.map_values(|x: (usize, String)| (x.0, x.1@)) =~= before.push((j, d.0@)));
            }
            j = j + 1;
        }
        i = i + 1;
    }
    m
}

/// What seeding created.
#[derive(Debug, Clone, Copy, PartialEq, Eq, Structural)]
pub struct SeedReport {
    pub programs_created: usize,
    pub memberships_created: usize,
}

impl Default for SeedReport {
    /// Nothing created.
    fn default() -> (r: SeedReport)
        ensures
            r == (SeedReport { programs_created: 0, memberships_created: 0 }),
    {
        SeedReport { programs_created: 0, memberships_created: 0 }
    }
}

} // verus!
