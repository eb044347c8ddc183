use calendars_core::constraints::{ClassKey, ClassroomType, Group, ProfessorKey, Semester};
use calendars_core::importer::{
    create_schedule, filter_unused_professors, import_schedule_rows, is_optative, parse_color_list,
    parse_semester_group, preprocess_sql, preprocess_sql_file, select_class_rows, to_human_time, ClassRow,
    ImportError, ImportSchedulePaths, ProfessorRow,
};

fn professor(nombre: &str, rfc: &str) -> ProfessorRow {
    ProfessorRow { nombre: nombre.to_string(), rfc: rfc.to_string() }
}

fn class_row(descripcion: &str, rfc1: &str, rfc2: &str, grupo: &str, asign: &str) -> ClassRow {
    ClassRow {
        descripcion: descripcion.to_string(),
        rfc1: rfc1.to_string(),
        rfc2: rfc2.to_string(),
        ciclo: "2022-2".to_string(),
        grupo: grupo.to_string(),
        asign: asign.to_string(),
    }
}

#[test]
fn test_preprocess_sql() {
    let input = r###"
-- phpMyAdmin SQL Dump
-- version 4.5.2
-- http://www.phpmyadmin.net
--

SET SQL_MODE = "NO_AUTO_VALUE_ON_ZERO";
SET time_zone = "+00:00";

/*!40101 SET @OLD_CHARACTER_SET_CLIENT=@@CHARACTER_SET_CLIENT */;
/*!40101 SET @OLD_CHARACTER_SET_RESULTS=@@CHARACTER_SET_RESULTS */;
/*!40101 SET @OLD_COLLATION_CONNECTION=@@COLLATION_CONNECTION */;
/*!40101 SET NAMES utf8mb4 */;

--
-- Database: `nanoDB`
--

-- --------------------------------------------------------

--
-- Table structure for table `Profesores`
--

CREATE TABLE `Profesores` (
  `nombre` varchar(50) NOT NULL,
  `rfc` varchar(14) NOT NULL,
  `usuario` varchar(30) NOT NULL
) ENGINE=InnoDB DEFAULT CHARSET=latin1;

--
-- Dumping data for table `Profesores`
--

INSERT INTO `Profesores` (`nombre`, `rfc`, `usuario`) VALUES
('AAAA', 'ABC1111', 'aaaa'),
('BBBB', 'ABC2222', 'bbbb'),
('CCCC', 'ABC3333', 'cccc');

--
-- Indexes for dumped tables
--

--
-- Indexes for table `Profesores`
--
ALTER TABLE `Profesores`
  ADD UNIQUE KEY `rfc` (`rfc`);

/*!40101 SET CHARACTER_SET_CLIENT=@OLD_CHARACTER_SET_CLIENT */;
/*!40101 SET CHARACTER_SET_RESULTS=@OLD_CHARACTER_SET_RESULTS */;
/*!40101 SET COLLATION_CONNECTION=@OLD_COLLATION_CONNECTION */;
"###;
    let output = r###"CREATE TABLE `Profesores` (
`nombre` varchar(50) NOT NULL,
`rfc` varchar(14) NOT NULL,
`usuario` varchar(30) NOT NULL
);
INSERT INTO `Profesores` (`nombre`, `rfc`, `usuario`) VALUES
('AAAA', 'ABC1111', 'aaaa'),
('BBBB', 'ABC2222', 'bbbb'),
('CCCC', 'ABC3333', 'cccc');
"###;
    assert_eq!(&preprocess_sql(input), &output)
}

#[test]
fn preprocess_sql_file_keeps_indentation() {
    let input = "SET x = 1;\nCREATE TABLE t (\n  a int\n) ENGINE=InnoDB;\n\n-- c\n";
    assert_eq!(preprocess_sql_file(input.to_string()), "CREATE TABLE t (\n  a int\n);\n");
}

#[test]
fn preprocess_sql_of_nothing_is_empty() {
    assert_eq!(preprocess_sql(""), "");
    assert_eq!(preprocess_sql("\n  \n-- only a comment\n"), "");
}

#[test]
fn parse_semester_group_reads_codes() {
    assert_eq!(parse_semester_group("0102"), Some((Semester::S1, Group::G2)));
    assert_eq!(parse_semester_group("0804xyz"), Some((Semester::S8, Group::G4)));
    assert_eq!(parse_semester_group("0901"), None);
    assert_eq!(parse_semester_group("0105"), None);
    assert_eq!(parse_semester_group("1102"), None);
    assert_eq!(parse_semester_group("010"), None);
    assert_eq!(parse_semester_group(""), None);
}

#[test]
fn is_optative_checks_the_code_prefix() {
    assert!(is_optative("0012"));
    assert!(is_optative("00"));
    assert!(!is_optative("0112"));
    assert!(!is_optative("0"));
}

#[test]
fn to_human_time_formats_hours() {
    assert_eq!(to_human_time(1), "1 hr.");
    assert_eq!(to_human_time(0), "0 hrs.");
    assert_eq!(to_human_time(3), "3 hrs.");
    assert_eq!(to_human_time(42), "42 hrs.");
    assert_eq!(to_human_time(255), "255 hrs.");
}

#[test]
fn filter_unused_professors_keeps_named_ones_in_order() {
    let classes = vec![class_row("A", "R2", "", "0101", "0101"), class_row("B", "R3", "R1", "0101", "0102")];
    let professors = vec![professor("p1", "R1"), professor("p2", "R2"), professor("p4", "R4"), professor("p3", "R3")];
    let kept = filter_unused_professors(&classes, professors);
    let names: Vec<&str> = kept.iter().map(|p| p.nombre.as_str()).collect();
    assert_eq!(names, vec!["p1", "p2", "p3"]);
}

#[test]
fn create_schedule_builds_theory_and_lab_classes() {
    let professors = vec![professor("Ana", "R1"), professor("Beto", "R2")];
    let classes = vec![
        class_row("Fisica", "R1", "R2", "0301", "0042"),
        class_row("Calculo", "R2", "  ", "0102", "0107"),
    ];
    let colors = vec![[1, 2, 3, 255], [4, 5, 6, 255]];
    let schedule = create_schedule(&professors, &classes, &colors).unwrap();
    assert_eq!(schedule.get_num_professors(), 2);
    assert_eq!(schedule.get_professor_metadata(ProfessorKey(1)).unwrap().name, "Beto");
    assert_eq!(schedule.get_num_classes(), 3);
    let theory = schedule.get_class(ClassKey(0)).unwrap();
    assert_eq!(theory.professor_key, ProfessorKey(0));
    assert_eq!(theory.class_hours, 2);
    assert_eq!(theory.semester, Semester::S3);
    assert_eq!(theory.group, Group::G1);
    assert!(theory.optative);
    assert!(theory.allowed_classroom_types.contains(ClassroomType::AulaSimple));
    assert!(theory.allowed_classroom_types.contains(ClassroomType::AulaDoble));
    assert!(!theory.allowed_classroom_types.contains(ClassroomType::LabFisica));
    let lab = schedule.get_class(ClassKey(1)).unwrap();
    assert_eq!(lab.professor_key, ProfessorKey(1));
    assert_eq!(lab.class_hours, 3);
    assert!(lab.allowed_classroom_types.contains(ClassroomType::LabFisica));
    assert!(lab.allowed_classroom_types.contains(ClassroomType::LabQuimica));
    assert!(!lab.allowed_classroom_types.contains(ClassroomType::AulaSimple));
    let other = schedule.get_class(ClassKey(2)).unwrap();
    assert_eq!(other.professor_key, ProfessorKey(1));
    assert_eq!(other.semester, Semester::S1);
    assert_eq!(other.group, Group::G2);
    assert!(!other.optative);
    let lab_meta = schedule.get_class_metadata(ClassKey(1)).unwrap();
    assert_eq!(lab_meta.name, "Fisica (Lab)");
    assert_eq!(lab_meta.class_code, "0042");
    assert_eq!(lab_meta.rgba, [1, 2, 3, 255]);
    assert_eq!(schedule.get_class_metadata(ClassKey(2)).unwrap().rgba, [4, 5, 6, 255]);
    assert_eq!(schedule.class_calendar().get_entries().len(), 7);
}

#[test]
fn create_schedule_cycles_colors() {
    let professors = vec![professor("Ana", "R1")];
    let classes = vec![
        class_row("A", "R1", "", "0101", "0001"),
        class_row("B", "R1", "", "0101", "0002"),
        class_row("C", "R1", "", "0101", "0003"),
    ];
    let colors = vec![[9, 9, 9, 255], [8, 8, 8, 255]];
    let schedule = create_schedule(&professors, &classes, &colors).unwrap();
    assert_eq!(schedule.get_class_metadata(ClassKey(2)).unwrap().rgba, [9, 9, 9, 255]);
}

#[test]
fn create_schedule_without_colors_makes_no_class() {
    let professors = vec![professor("Ana", "R1")];
    let classes = vec![class_row("A", "R9", "", "zz", "0001")];
    let schedule = create_schedule(&professors, &classes, &Vec::new()).unwrap();
    assert_eq!(schedule.get_num_classes(), 0);
    assert_eq!(schedule.get_num_professors(), 1);
}

#[test]
fn create_schedule_reports_duplicate_rfc() {
    let professors = vec![professor("Ana", "R1"), professor("Beto", "R2"), professor("Carla", "R1")];
    let r = create_schedule(&professors, &[], &vec![[0, 0, 0, 255]]);
    assert!(matches!(r, Err(ImportError::DuplicateRfc(ref rfc)) if rfc == "R1"));
}

#[test]
fn create_schedule_reports_unknown_professor() {
    let professors = vec![professor("Ana", "R1")];
    let classes = vec![class_row("A", "R1", "", "0101", "0001"), class_row("B", "R7", "", "0101", "0002")];
    let r = create_schedule(&professors, &classes, &vec![[0, 0, 0, 255]]);
    assert!(matches!(
        r,
        Err(ImportError::ProfessorNotFound { ref rfc, ref class_code, ref description })
            if rfc == "R7" && class_code == "0002" && description == "B"
    ));
}

#[test]
fn create_schedule_reports_unknown_lab_professor() {
    let professors = vec![professor("Ana", "R1")];
    let classes = vec![class_row("A", "R1", "R8", "0101", "0001")];
    let r = create_schedule(&professors, &classes, &vec![[0, 0, 0, 255]]);
    assert!(matches!(
        r,
        Err(ImportError::LabProfessorNotFound { ref rfc, ref class_code, ref description })
            if rfc == "R8" && class_code == "0001" && description == "A"
    ));
}

#[test]
fn create_schedule_reports_bad_group_code() {
    let professors = vec![professor("Ana", "R1")];
    let classes = vec![class_row("A", "R1", "", "9x01", "0001")];
    let r = create_schedule(&professors, &classes, &vec![[0, 0, 0, 255]]);
    assert!(matches!(
        r,
        Err(ImportError::SemesterGroupNotParsed { ref group_code, ref description })
            if group_code == "9x01" && description == "A"
    ));
}

#[test]
fn select_class_rows_applies_the_import_filter() {
    let mut old_term = class_row("Old", "R1", "", "0201", "0001");
    old_term.ciclo = "2021-1".to_string();
    let rows = vec![
        class_row("Kept", "R1", "", "0201", "0001"),
        old_term,
        class_row("Other group", "R1", "", "0301", "0001"),
        class_row("CURSO TALLER DE DIDÁCTICA II", "R1", "", "0201", "0001"),
        class_row("Also kept", "R1", "", "0203", "0001"),
    ];
    let kept = select_class_rows(&rows);
    let names: Vec<&str> = kept.iter().map(|r| r.descripcion.as_str()).collect();
    assert_eq!(names, vec!["Kept", "Also kept"]);
}

#[test]
fn import_schedule_rows_drops_unused_professors() {
    let professors = vec![professor("Ana", "R1"), professor("Nadie", "R5"), professor("Beto", "R2")];
    let classes = vec![class_row("A", "R2", "", "0201", "0001"), class_row("B", "R1", "", "0101", "0002"), class_row("C", "R2", "", "0203", "0003")];
    let schedule = import_schedule_rows(professors, classes, &vec![[0, 0, 0, 255]]).unwrap();
    assert_eq!(schedule.get_num_professors(), 1);
    assert_eq!(schedule.get_professor_metadata(ProfessorKey(0)).unwrap().name, "Beto");
    assert_eq!(schedule.get_num_classes(), 2);
    assert_eq!(schedule.get_class(ClassKey(1)).unwrap().professor_key, ProfessorKey(0));
}

#[test]
fn parse_color_list_reads_css_colors() {
    let names = vec!["red".to_string(), "#00ff00".to_string(), "rgb(0, 0, 255)".to_string()];
    let colors = parse_color_list(&names).unwrap();
    assert_eq!(colors, vec![[255, 0, 0, 255], [0, 255, 0, 255], [0, 0, 255, 255]]);
    assert_eq!(parse_color_list(&vec!["red".to_string(), "no such colour".to_string()]), None);
    assert_eq!(parse_color_list(&Vec::new()), Some(Vec::new()));
}

#[test]
fn import_schedule_paths_default() {
    let paths = ImportSchedulePaths::default();
    assert_eq!(paths.materias_sql_path, "Archivos SQL/Materias.sql");
    assert_eq!(paths.profesores_sql_path, "Archivos SQL/Profesores.sql");
}
