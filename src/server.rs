use vstd::prelude::*;

verus! {

/// Where the container files are fetched from and published to.
pub struct ServerConfig {
    pub host: String,
    pub user: String,
    pub port: u16,
}

/// The directory on the remote host that holds the container files.
pub const SCHEMATIC_DIR: &'static str = "/minecraft/active-world/plugins/WorldEdit/schematics/";

impl ServerConfig {
    /// The default remote host.
    pub fn fili() -> (r: Self)
        ensures
            r.host@ == "donsz.nl"@,
            r.user@ == "jonathan"@,
            r.port == 22,
    {
        ServerConfig { host: "donsz.nl".to_owned(), user: "jonathan".to_owned(), port: 22 }
    }

    /// The remote path of the container file called `name`.
    pub fn schematic_path(name: &str) -> (r: String)
        ensures
            r@ == SCHEMATIC_DIR@ + name@ + ".schem"@,
    {
        let mut p = SCHEMATIC_DIR.to_owned();
        p.append(name);
        p.append(".schem");
        p
    }
}

} // verus!
